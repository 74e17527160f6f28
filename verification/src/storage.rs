use crate::component::AnyComponent;
use vstd::prelude::*;

verus! {

/// A collection of components used inside archetypes.
pub trait ComponentCollection {
    /// The stored components, in order.
    spec fn items(&self) -> Seq<AnyComponent>;

    /// Returns the component at `index`, or `None` past the end.
    fn get(&self, index: usize) -> (res: Option<&AnyComponent>)
        ensures
            index < self.items().len() ==> (res matches Some(c) && *c == self.items()[index as int]),
            index >= self.items().len() ==> res is None,
    ;

    /// Appends the components at the end of the collection.
    fn add_many(&mut self, components: Vec<AnyComponent>)
        ensures
            final(self).items() == old(self).items() + components@,
    ;

    /// Takes `count` components out of the collection, from `index` on.
    fn remove_many(&mut self, index: usize, count: usize) -> (removed: Vec<AnyComponent>)
        requires
            index + count <= old(self).items().len(),
        ensures
            removed@ == old(self).items().subrange(index as int, index + count),
            final(self).items() == old(self).items().subrange(0, index as int) + old(
                self,
            ).items().subrange(index + count, old(self).items().len() as int),
    ;
}

/// An array of components of a single class, stored one after the other.
pub struct ComponentArray {
    components: Vec<AnyComponent>,
}

impl ComponentArray {
    /// Returns an empty ComponentArray.
    pub fn new() -> (res: Self)
        ensures
            res.items() == Seq::<AnyComponent>::empty(),
    {
        ComponentArray { components: Vec::new() }
    }

    /// Returns the number of stored components.
    pub fn len(&self) -> (n: usize)
        ensures
            n == self.items().len(),
    {
        self.components.len()
    }
}

impl ComponentArray {
    /// Replaces the component at `index`.
    pub fn set(&mut self, index: usize, component: AnyComponent)
        requires
            index < old(self).items().len(),
        ensures
            final(self).items() == old(self).items().update(index as int, component),
    {
        self.components.set(index, component);
    }
}

impl ComponentCollection for ComponentArray {
    closed spec fn items(&self) -> Seq<AnyComponent> {
        self.components@
    }

    fn get(&self, index: usize) -> (res: Option<&AnyComponent>) {
        if index < self.components.len() {
            Some(&self.components[index])
        } else {
            None
        }
    }

    fn add_many(&mut self, components: Vec<AnyComponent>) {
        let mut components = components;
        self.components.append(&mut components);
    }

    fn remove_many(&mut self, index: usize, count: usize) -> (removed: Vec<AnyComponent>) {
        let ghost before = self.components@;
        let mut removed = self.components.split_off(index);
        let mut after = removed.split_off(count);
        self.components.append(&mut after);
        assert(self.components@ =~= before.subrange(0, index as int) + before.subrange(
            index + count,
            before.len() as int,
        ));
        assert(removed@ =~= before.subrange(index as int, index + count));
        removed
    }
}

/// The components of one class for all the entities of an archetype: entity
/// `i` owns the components from `i * components_per_entity` on.
pub struct ComponentStorage {
    collection: ComponentArray,
    components_per_entity: usize,
}

impl ComponentStorage {
    /// The stored components, entity after entity.
    pub closed spec fn items(&self) -> Seq<AnyComponent> {
        self.collection.items()
    }

    /// How many components of the class each entity has.
    pub closed spec fn per_entity(&self) -> nat {
        self.components_per_entity as nat
    }

    /// The components of entity `entity_index`.
    pub open spec fn entity_items(&self, entity_index: int) -> Seq<AnyComponent> {
        self.items().subrange(
            entity_index * self.per_entity(),
            (entity_index + 1) * self.per_entity(),
        )
    }

    /// Returns a storage that holds the components of a first entity.
    pub fn new(components: Vec<AnyComponent>) -> (res: Self)
        requires
            components@.len() > 0,
        ensures
            res.items() == components@,
            res.per_entity() == components@.len(),
    {
        let components_per_entity = components.len();
        let mut collection = ComponentArray::new();
        collection.add_many(components);
        ComponentStorage { collection, components_per_entity }
    }

    /// Returns the number of stored components.
    pub fn len(&self) -> (n: usize)
        ensures
            n == self.items().len(),
    {
        self.collection.len()
    }

    /// Returns how many components of the class each entity has.
    pub fn get_components_per_entity(&self) -> (n: usize)
        ensures
            n == self.per_entity(),
    {
        self.components_per_entity
    }

    /// Returns the component at `index` in the storage.
    pub fn get(&self, index: usize) -> (res: Option<&AnyComponent>)
        ensures
            index < self.items().len() ==> (res matches Some(c) && *c == self.items()[index as int]),
            index >= self.items().len() ==> res is None,
    {
        self.collection.get(index)
    }

    /// Replaces the component at `index` in the storage.
    pub fn set(&mut self, index: usize, component: AnyComponent)
        requires
            index < old(self).items().len(),
        ensures
            final(self).items() == old(self).items().update(index as int, component),
            final(self).per_entity() == old(self).per_entity(),
    {
        self.collection.set(index, component);
    }

    /// Stores the components of one more entity.
    pub fn add(&mut self, components: Vec<AnyComponent>)
        requires
            components@.len() == old(self).per_entity(),
        ensures
            final(self).items() == old(self).items() + components@,
            final(self).per_entity() == old(self).per_entity(),
    {
        self.collection.add_many(components);
    }

    /// Takes the components of entity `entity_index` out of the storage; the
    /// entities after it move down by one.
    pub fn remove(&mut self, entity_index: usize) -> (removed: Vec<AnyComponent>)
        requires
            (entity_index + 1) * old(self).per_entity() <= old(self).items().len(),
        ensures
            removed@ == old(self).entity_items(entity_index as int),
            final(self).items() == old(self).items().subrange(
                0,
                entity_index * old(self).per_entity(),
            ) + old(self).items().subrange(
                (entity_index + 1) * old(self).per_entity(),
                old(self).items().len() as int,
            ),
            final(self).per_entity() == old(self).per_entity(),
    {
        let total = self.collection.len();
        proof {
            let c = old(self).per_entity();
            let e = entity_index as int;
            assert((e + 1) * c == e * c + c) by (nonlinear_arith);
            assert(0 <= e * c) by (nonlinear_arith)
                requires
                    e >= 0,
                    c >= 0,
            ;
            assert(self.components_per_entity as int == c);
            assert(e * c <= old(self).items().len());
        }
        let index = entity_index * self.components_per_entity;
        self.collection.remove_many(index, self.components_per_entity)
    }
}

} // verus!
