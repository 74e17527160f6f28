use crate::archetype::{
    lemma_slots_of_class,
    of_class,
    slots_of,
    storage_contents,
    storage_layout,
    storage_slots,
    Archetype,
    ComponentReference,
    EntityReference,
};
use crate::component::{AnyComponent, EntityId, StaticComponent};
use crate::grouping::{assoc_keys, assoc_map};
use crate::names::str_eq;
use crate::query::{class_slots, entity_class_slots, QueryInjectable, RequestedEntityGuard};
use core::marker::PhantomData;
use vstd::prelude::*;

verus! {

/// A read access to an entity of an archetype.
pub struct EntityReadGuard<'a> {
    pub entity_id: usize,
    pub archetype: &'a Archetype,
}

/// A read access to a component: the class of the storage that holds it
/// and its position in that storage.
pub struct ComponentReadGuard<'a> {
    pub archetype: &'a Archetype,
    pub component_identifier: String,
    pub component_index: usize,
}

/// A read access to a component known to be of class `T`.
pub struct TypedComponentReadGuard<'a, T> {
    pub component_reader: ComponentReadGuard<'a>,
    pub phantom: PhantomData<T>,
}

impl<'a> ComponentReadGuard<'a> {
    /// The guard points at a component of its archetype.
    pub open spec fn valid(&self) -> bool {
        &&& self.archetype.wf()
        &&& self.archetype.has_component(self.component_identifier@, self.component_index as int)
    }

    /// The component the guard reads.
    pub open spec fn component(&self) -> AnyComponent {
        self.archetype.component_at(self.component_identifier@, self.component_index as int)
    }

    /// Returns the component.
    pub fn get(&self) -> (component: &'a AnyComponent)
        requires
            self.valid(),
        ensures
            *component == self.component(),
    {
        let archetype: &'a Archetype = self.archetype;
        archetype.get_component(self.component_identifier.as_str(), self.component_index).unwrap()
    }

    /// Returns a typed guard when the component is of class `T`.
    pub fn try_into_typed<T: StaticComponent>(self) -> (res: Option<TypedComponentReadGuard<'a, T>>)
        requires
            self.valid(),
        ensures
            res is Some <==> self.component().class_name@ == T::component_name(),
            res matches Some(typed) ==> typed.component_reader == self,
    {
        let name = T::get_component_name();
        let matches = str_eq(self.get().class_name.as_str(), name.as_str());
        if matches {
            Some(TypedComponentReadGuard { component_reader: self, phantom: PhantomData })
        } else {
            None
        }
    }
}

impl<'a, T: StaticComponent> TypedComponentReadGuard<'a, T> {
    /// Returns the component.
    pub fn get(&self) -> (component: &'a AnyComponent)
        requires
            self.component_reader.valid(),
        ensures
            *component == self.component_reader.component(),
    {
        self.component_reader.get()
    }
}

impl<'a> ComponentReference<'a> {
    /// Get a read access to the component
    pub fn read(&self) -> (guard: ComponentReadGuard<'a>)
        ensures
            guard.archetype == self.entity.archetype,
            guard.component_identifier@ == self.component_identifier@,
            guard.component_index == self.component_index,
    {
        ComponentReadGuard {
            archetype: self.entity.archetype,
            component_identifier: self.component_identifier.clone(),
            component_index: self.component_index,
        }
    }

    /// Get a read access to the component when it is of class `T`
    pub fn read_typed<T: StaticComponent>(&self) -> (res: Option<TypedComponentReadGuard<'a, T>>)
        requires
            self.entity.archetype.wf(),
            self.entity.archetype.has_component(
                self.component_identifier@,
                self.component_index as int,
            ),
        ensures
            res is Some <==> self.entity.archetype.component_at(
                self.component_identifier@,
                self.component_index as int,
            ).class_name@ == T::component_name(),
            res matches Some(typed) ==> typed.component_reader.archetype == self.entity.archetype
                && typed.component_reader.component_identifier@ == self.component_identifier@
                && typed.component_reader.component_index == self.component_index,
    {
        self.read().try_into_typed()
    }

    /// Get a read access to the entity
    pub fn read_entity(&self) -> (guard: EntityReadGuard<'a>)
        ensures
            guard.entity_id == self.entity.entity_id,
            guard.archetype == self.entity.archetype,
    {
        self.entity.read()
    }
}

impl<'a> EntityReference<'a> {
    /// Get a read access to the entity
    pub fn read(&self) -> (guard: EntityReadGuard<'a>)
        ensures
            guard.entity_id == self.entity_id,
            guard.archetype == self.archetype,
    {
        EntityReadGuard { entity_id: self.entity_id, archetype: self.archetype }
    }

    /// Get all components
    pub fn get_components(&self) -> (res: Vec<ComponentReference<'a>>)
        requires
            self.archetype.wf(),
            self.entity_id < self.archetype.entity_count(),
        ensures
            res@.len() == self.archetype.entity_components(self.entity_id as int).len(),
            forall|i: int|
                0 <= i < res@.len() ==> (#[trigger] res@[i]).entity.entity_id == self.entity_id
                    && res@[i].entity.archetype == self.archetype && self.archetype.has_component(
                    res@[i].component_identifier@,
                    res@[i].component_index as int,
                ) && self.archetype.component_at(
                    res@[i].component_identifier@,
                    res@[i].component_index as int,
                ) == self.archetype.entity_components(self.entity_id as int)[i],
            forall|i: int|
                0 <= i < res@.len() ==> ((#[trigger] res@[i]).component_identifier@,
                res@[i].component_index as int) == slots_of(
                    self.archetype.storages(),
                    self.entity_id as int,
                )[i],
    {
        let archetype: &'a Archetype = self.archetype;
        let res = archetype.get_entity_components(self.entity_id);
        proof {
            archetype.lemma_slots_hold_components(self.entity_id as int);
            let slots = slots_of(archetype.storages(), self.entity_id as int);
            assert forall|i: int| 0 <= i < res@.len() implies (#[trigger] res@[i]).entity.entity_id
                == self.entity_id && res@[i].entity.archetype == self.archetype
                && self.archetype.has_component(
                res@[i].component_identifier@,
                res@[i].component_index as int,
            ) && self.archetype.component_at(
                res@[i].component_identifier@,
                res@[i].component_index as int,
            ) == self.archetype.entity_components(self.entity_id as int)[i] by {
                assert((res@[i].component_identifier@, res@[i].component_index as int) == slots[i]);
                assert(self.archetype.has_component(slots[i].0, slots[i].1));
                assert(self.archetype.component_at(slots[i].0, slots[i].1)
                    == self.archetype.entity_components(self.entity_id as int)[i]);
            }
        }
        res
    }

    /// Get components with a given type
    ///
    /// # Arguments
    /// * `component_identifier` - The component identifier
    ///
    pub fn get_components_by_type_identifier(&self, component_identifier: &str) -> (res: Vec<
        ComponentReference<'a>,
    >)
        requires
            self.archetype.wf(),
            self.entity_id < self.archetype.entity_count(),
        ensures
            !assoc_keys(self.archetype.storages()).contains(component_identifier@) ==> res@.len()
                == 0,
            assoc_keys(self.archetype.storages()).contains(component_identifier@) ==> res@.len()
                == assoc_map(storage_layout(self.archetype.storages()))[component_identifier@],
            forall|i: int|
                0 <= i < res@.len() ==> (#[trigger] res@[i]).entity.entity_id == self.entity_id
                    && res@[i].entity.archetype == self.archetype && (res@[i].component_identifier@,
                res@[i].component_index as int) == storage_slots(
                    component_identifier@,
                    assoc_map(storage_layout(self.archetype.storages()))[component_identifier@],
                    self.entity_id as int,
                )[i],
    {
        let archetype: &'a Archetype = self.archetype;
        archetype.get_entity_components_from_type(self.entity_id, component_identifier)
    }
}

/// The places of the components that `get_components_by_type_identifier`
/// gives for a class are those of the components that `get_components`
/// gives whose class is that one, in the same order.
pub proof fn lemma_components_of_a_class<'a>(entity: EntityReference<'a>, key: Seq<char>)
    requires
        entity.archetype.wf(),
        entity.entity_id < entity.archetype.entity_count(),
    ensures
        slots_of(entity.archetype.storages(), entity.entity_id as int).filter(of_class(key))
            == entity_class_slots(*entity.archetype, entity.entity_id as int, key),
{
    entity.archetype.lemma_layout();
    lemma_slots_of_class(entity.archetype.storages(), entity.entity_id as int, key);
}

impl<'a> EntityReadGuard<'a> {
    /// The guard points at an entity of its archetype.
    pub open spec fn valid(&self) -> bool {
        self.archetype.wf() && self.entity_id < self.archetype.entity_count()
    }

    /// The entity the guard reads.
    pub open spec fn entity(&self) -> EntityReference<'a> {
        EntityReference { entity_id: self.entity_id, archetype: self.archetype }
    }

    /// Read the components of class `T`, in order
    pub fn iter_components<T: StaticComponent>(&self) -> (res: Vec<TypedComponentReadGuard<'a, T>>)
        requires
            self.valid(),
        ensures
            res@.len() == class_slots(self.entity(), T::component_name()).len(),
            forall|i: int|
                0 <= i < res@.len() ==> (#[trigger] res@[i]).component_reader.archetype
                    == self.archetype && res@[i].component_reader.component_identifier@
                    == T::component_name() && res@[i].component_reader.component_index
                    == class_slots(self.entity(), T::component_name())[i].1,
    {
        let entity = EntityReference { entity_id: self.entity_id, archetype: self.archetype };
        <TypedComponentReadGuard<'a, T> as QueryInjectable<'a>>::from_components(
            entity,
            RequestedEntityGuard::Read,
        )
    }

    /// Read the first component of class `T`, if the entity has one
    pub fn read_single_component<T: StaticComponent>(&self) -> (res: Option<
        TypedComponentReadGuard<'a, T>,
    >)
        requires
            self.valid(),
        ensures
            res is Some <==> class_slots(self.entity(), T::component_name()).len() > 0,
            res matches Some(guard) ==> guard.component_reader.archetype == self.archetype
                && guard.component_reader.component_identifier@ == T::component_name()
                && guard.component_reader.component_index == class_slots(
                self.entity(),
                T::component_name(),
            )[0].1,
    {
        let mut all = self.iter_components::<T>();
        if all.len() == 0 {
            None
        } else {
            Some(all.remove(0))
        }
    }

    /// Get the entity id
    pub fn get_entity_id(&self) -> (id: EntityId)
        requires
            self.valid(),
        ensures
            id == self.archetype.entity_ids()[self.entity_id as int],
    {
        self.archetype.get_entity_id(self.entity_id)
    }

    /// Get the entity name
    pub fn get_name(&self) -> (name: String)
        requires
            self.valid(),
        ensures
            name@ == self.archetype.names()[self.entity_id as int],
    {
        self.archetype.get_name(self.entity_id)
    }

    /// Is the entity enabled
    pub fn is_enabled(&self) -> (enabled: bool)
        requires
            self.valid(),
        ensures
            enabled == self.archetype.enabled_flags()[self.entity_id as int],
    {
        self.archetype.is_enabled(self.entity_id)
    }

    /// Read all components of the entity
    pub fn read_all_components(&self) -> (res: Vec<ComponentReadGuard<'a>>)
        requires
            self.valid(),
        ensures
            res@.len() == self.archetype.entity_components(self.entity_id as int).len(),
            forall|i: int|
                0 <= i < res@.len() ==> (#[trigger] res@[i]).valid() && res@[i].archetype
                    == self.archetype && res@[i].component()
                    == self.archetype.entity_components(self.entity_id as int)[i],
    {
        let reference = EntityReference { entity_id: self.entity_id, archetype: self.archetype };
        let references = reference.get_components();
        let mut res: Vec<ComponentReadGuard<'a>> = Vec::new();
        let n = references.len();
        let mut i: usize = 0;
        while i < n
            invariant
                n == references@.len(),
                i <= n,
                res@.len() == i,
                self.valid(),
                forall|k: int|
                    0 <= k < n ==> (#[trigger] references@[k]).entity.archetype == self.archetype
                        && self.archetype.has_component(
                        references@[k].component_identifier@,
                        references@[k].component_index as int,
                    ) && self.archetype.component_at(
                        references@[k].component_identifier@,
                        references@[k].component_index as int,
                    ) == self.archetype.entity_components(self.entity_id as int)[k],
                forall|k: int|
                    0 <= k < i ==> (#[trigger] res@[k]).valid() && res@[k].archetype
                        == self.archetype && res@[k].component()
                        == self.archetype.entity_components(self.entity_id as int)[k],
            decreases n - i,
        {
            let guard = references[i].read();
            proof {
                assert(references@[i as int].entity.archetype == self.archetype);
            }
            res.push(guard);
            i = i + 1;
        }
        res
    }

    /// Read components with a given type
    ///
    /// # Arguments
    /// * `component_identifier` - The component identifier
    ///
    pub fn iter_components_from_type_identifier(&self, component_identifier: &str) -> (res: Vec<
        ComponentReadGuard<'a>,
    >)
        requires
            self.valid(),
        ensures
            !assoc_keys(self.archetype.storages()).contains(component_identifier@) ==> res@.len()
                == 0,
            assoc_keys(self.archetype.storages()).contains(component_identifier@) ==> res@.len()
                == assoc_map(storage_layout(self.archetype.storages()))[component_identifier@],
            forall|i: int|
                0 <= i < res@.len() ==> (#[trigger] res@[i]).archetype == self.archetype
                    && res@[i].component_identifier@ == component_identifier@
                    && res@[i].component_index == storage_slots(
                    component_identifier@,
                    assoc_map(storage_layout(self.archetype.storages()))[component_identifier@],
                    self.entity_id as int,
                )[i].1,
    {
        let reference = EntityReference { entity_id: self.entity_id, archetype: self.archetype };
        let references = reference.get_components_by_type_identifier(component_identifier);
        let ghost slots = storage_slots(
            component_identifier@,
            assoc_map(storage_layout(self.archetype.storages()))[component_identifier@],
            self.entity_id as int,
        );
        let mut res: Vec<ComponentReadGuard<'a>> = Vec::new();
        let n = references.len();
        let mut i: usize = 0;
        assert forall|k: int| 0 <= k < slots.len() implies #[trigger] slots[k].0 == component_identifier@ by {}
        while i < n
            invariant
                n == references@.len(),
                n == 0 || n == slots.len(),
                forall|k: int| 0 <= k < slots.len() ==> #[trigger] slots[k].0 == component_identifier@,
                i <= n,
                res@.len() == i,
                forall|k: int|
                    0 <= k < n ==> (#[trigger] references@[k]).entity.archetype == self.archetype
                        && (references@[k].component_identifier@, references@[k].component_index as int)
                        == slots[k],
                forall|k: int|
                    0 <= k < i ==> (#[trigger] res@[k]).archetype == self.archetype
                        && res@[k].component_identifier@ == component_identifier@
                        && res@[k].component_index == slots[k].1,
            decreases n - i,
        {
            let guard = references[i].read();
            proof {
                assert(references@[i as int].entity.archetype == self.archetype);
                assert(n == slots.len());
                assert(slots[i as int].0 == component_identifier@);
            }
            res.push(guard);
            i = i + 1;
        }
        res
    }
}

/// A write access to a component: the class of the storage that holds it
/// and its position in that storage.
pub struct ComponentWriteGuard<'a> {
    pub archetype: &'a mut Archetype,
    pub component_identifier: String,
    pub component_index: usize,
}

/// A write access to a component known to be of class `T`.
pub struct TypedComponentWriteGuard<'a, T> {
    pub component_writer: ComponentWriteGuard<'a>,
    pub phantom: PhantomData<T>,
}

impl<'a, T: StaticComponent> TypedComponentWriteGuard<'a, T> {
    /// Returns the component.
    pub fn get(&self) -> (component: &AnyComponent)
        requires
            self.component_writer.archetype.wf(),
            self.component_writer.archetype.has_component(
                self.component_writer.component_identifier@,
                self.component_writer.component_index as int,
            ),
        ensures
            *component == self.component_writer.component(),
    {
        self.component_writer.get()
    }

    /// Replaces the component by another one of class `T`.
    pub fn set(&mut self, component: AnyComponent)
        requires
            old(self).component_writer.archetype.wf(),
            old(self).component_writer.archetype.has_component(
                old(self).component_writer.component_identifier@,
                old(self).component_writer.component_index as int,
            ),
            component.class_name@ == old(self).component_writer.component_identifier@,
        ensures
            *final(final(self).component_writer.archetype) == *final(old(self).component_writer.archetype),
            final(self).component_writer.archetype.wf(),
            final(self).component_writer.component_identifier@ == old(self).component_writer.component_identifier@,
            final(self).component_writer.component_index == old(self).component_writer.component_index,
            final(self).component_writer.archetype.component_replaced(
                *old(self).component_writer.archetype,
                old(self).component_writer.component_identifier@,
                old(self).component_writer.component_index as int,
                component,
            ),
    {
        self.component_writer.set(component);
    }
}

impl<'a> ComponentWriteGuard<'a> {
    /// The component the guard writes.
    pub open spec fn component(&self) -> AnyComponent {
        self.archetype.component_at(self.component_identifier@, self.component_index as int)
    }

    /// Returns the component.
    pub fn get(&self) -> (component: &AnyComponent)
        requires
            self.archetype.wf(),
            self.archetype.has_component(self.component_identifier@, self.component_index as int),
        ensures
            *component == self.component(),
    {
        self.archetype.get_component(self.component_identifier.as_str(), self.component_index).unwrap()
    }

    /// Returns a typed guard when the component is of class `T`.
    pub fn try_into_typed<T: StaticComponent>(self) -> (res: Option<TypedComponentWriteGuard<'a, T>>)
        requires
            self.archetype.wf(),
            self.archetype.has_component(self.component_identifier@, self.component_index as int),
        ensures
            res is Some <==> self.component().class_name@ == T::component_name(),
            res matches Some(typed) ==> typed.component_writer == self,
    {
        let name = T::get_component_name();
        let matches = str_eq(self.get().class_name.as_str(), name.as_str());
        if matches {
            Some(TypedComponentWriteGuard { component_writer: self, phantom: PhantomData })
        } else {
            None
        }
    }

    /// Replaces the component by one of the same class.
    pub fn set(&mut self, component: AnyComponent)
        requires
            old(self).archetype.wf(),
            old(self).archetype.has_component(old(self).component_identifier@, old(self).component_index as int),
            component.class_name@ == old(self).component_identifier@,
        ensures
            *final(final(self).archetype) == *final(old(self).archetype),
            final(self).archetype.wf(),
            final(self).component_identifier@ == old(self).component_identifier@,
            final(self).component_index == old(self).component_index,
            final(self).archetype.component_replaced(
                *old(self).archetype,
                old(self).component_identifier@,
                old(self).component_index as int,
                component,
            ),
    {
        self.archetype.set_component(self.component_identifier.as_str(), self.component_index, component);
    }
}

/// A write access to an entity of an archetype.
pub struct EntityWriteGuard<'a> {
    pub entity_id: usize,
    pub archetype: &'a mut Archetype,
}

impl<'a> EntityWriteGuard<'a> {
    /// The archetype as the guard sees it now.
    pub open spec fn current(&self) -> Archetype {
        *self.archetype
    }

    /// The guard points at an entity of its archetype.
    pub open spec fn valid(&self) -> bool {
        self.current().wf() && self.entity_id < self.current().entity_count()
    }

    /// Get the entity id
    pub fn get_entity_id(&self) -> (id: EntityId)
        requires
            self.valid(),
        ensures
            id == self.current().entity_ids()[self.entity_id as int],
    {
        self.archetype.get_entity_id(self.entity_id)
    }

    /// Get the entity name
    pub fn get_name(&self) -> (name: String)
        requires
            self.valid(),
        ensures
            name@ == self.current().names()[self.entity_id as int],
    {
        self.archetype.get_name(self.entity_id)
    }

    /// Set the entity name
    ///
    /// # Arguments
    /// * `value` - The name value
    ///
    pub fn set_name(&mut self, value: &str)
        requires
            old(self).valid(),
        ensures
            *final(final(self).archetype) == *final(old(self).archetype),
            final(self).valid(),
            final(self).entity_id == old(self).entity_id,
            final(self).archetype.entity_ids() == old(self).archetype.entity_ids(),
            final(self).archetype.names() == old(self).archetype.names().update(
                old(self).entity_id as int,
                value@,
            ),
            final(self).archetype.enabled_flags() == old(self).archetype.enabled_flags(),
            final(self).archetype.type_names() == old(self).archetype.type_names(),
            final(self).archetype.storages() == old(self).archetype.storages(),
    {
        self.archetype.set_name(self.entity_id, value);
    }

    /// Is the entity enabled
    pub fn is_enabled(&self) -> (enabled: bool)
        requires
            self.valid(),
        ensures
            enabled == self.current().enabled_flags()[self.entity_id as int],
    {
        self.archetype.is_enabled(self.entity_id)
    }

    /// Set the entity enabled state
    ///
    /// # Arguments
    /// * `value` - Is the entity enabled
    ///
    pub fn set_enabled(&mut self, value: bool)
        requires
            old(self).valid(),
        ensures
            *final(final(self).archetype) == *final(old(self).archetype),
            final(self).valid(),
            final(self).entity_id == old(self).entity_id,
            final(self).archetype.entity_ids() == old(self).archetype.entity_ids(),
            final(self).archetype.names() == old(self).archetype.names(),
            final(self).archetype.enabled_flags() == old(self).archetype.enabled_flags().update(
                old(self).entity_id as int,
                value,
            ),
            final(self).archetype.type_names() == old(self).archetype.type_names(),
            final(self).archetype.storages() == old(self).archetype.storages(),
    {
        self.archetype.set_enabled(self.entity_id, value);
    }

    /// Read the components of class `component_identifier`, in order
    pub fn iter_components_from_type_identifier(&self, component_identifier: &str) -> (res: Vec<
        ComponentReadGuard<'_>,
    >)
        requires
            self.valid(),
        ensures
            res@.len() == entity_class_slots(
                self.current(),
                self.entity_id as int,
                component_identifier@,
            ).len(),
            forall|i: int|
                0 <= i < res@.len() ==> *(#[trigger] res@[i]).archetype == self.current()
                    && res@[i].component_identifier@ == component_identifier@
                    && res@[i].component_index == entity_class_slots(
                    self.current(),
                    self.entity_id as int,
                    component_identifier@,
                )[i].1,
    {
        let reader = EntityReadGuard { entity_id: self.entity_id, archetype: &*self.archetype };
        reader.iter_components_from_type_identifier(component_identifier)
    }

    /// Read the components of class `T`, in order
    pub fn iter_components<T: StaticComponent>(&self) -> (res: Vec<TypedComponentReadGuard<'_, T>>)
        requires
            self.valid(),
        ensures
            res@.len() == entity_class_slots(
                self.current(),
                self.entity_id as int,
                T::component_name(),
            ).len(),
            forall|i: int|
                0 <= i < res@.len() ==> *(#[trigger] res@[i]).component_reader.archetype
                    == self.current() && res@[i].component_reader.component_identifier@
                    == T::component_name() && res@[i].component_reader.component_index
                    == entity_class_slots(self.current(), self.entity_id as int, T::component_name())[i].1,
    {
        let reader = EntityReadGuard { entity_id: self.entity_id, archetype: &*self.archetype };
        reader.iter_components::<T>()
    }

    /// Read the first component of class `T`, if the entity has one
    pub fn read_single_component<T: StaticComponent>(&self) -> (res: Option<
        TypedComponentReadGuard<'_, T>,
    >)
        requires
            self.valid(),
        ensures
            res is Some <==> entity_class_slots(
                self.current(),
                self.entity_id as int,
                T::component_name(),
            ).len() > 0,
            res matches Some(guard) ==> *guard.component_reader.archetype == self.current()
                && guard.component_reader.component_identifier@ == T::component_name()
                && guard.component_reader.component_index == entity_class_slots(
                self.current(),
                self.entity_id as int,
                T::component_name(),
            )[0].1,
    {
        let reader = EntityReadGuard { entity_id: self.entity_id, archetype: &*self.archetype };
        reader.read_single_component::<T>()
    }

    /// A write access to the first component of class `T`, if the entity
    /// has one
    pub fn write_single_component<T: StaticComponent>(&mut self) -> (res: Option<
        TypedComponentWriteGuard<'_, T>,
    >)
        requires
            old(self).valid(),
        ensures
            res is Some <==> entity_class_slots(
                *old(self).archetype,
                old(self).entity_id as int,
                T::component_name(),
            ).len() > 0,
            res matches Some(guard) ==> *guard.component_writer.archetype == *old(self).archetype
                && guard.component_writer.component_identifier@ == T::component_name()
                && guard.component_writer.component_index == entity_class_slots(
                *old(self).archetype,
                old(self).entity_id as int,
                T::component_name(),
            )[0].1 && *final(self).archetype == *final(guard.component_writer.archetype),
            res is None ==> *final(self).archetype == *old(self).archetype,
            final(self).entity_id == old(self).entity_id,
    {
        let found = self.read_single_component::<T>();
        match found {
            Some(reader) => {
                let identifier = reader.component_reader.component_identifier.clone();
                let index = reader.component_reader.component_index;
                let writer = self.archetype.write_component(identifier.as_str(), index);
                Some(TypedComponentWriteGuard { component_writer: writer, phantom: PhantomData })
            },
            None => None,
        }
    }
}

impl Archetype {
    /// A write access to the entity at `entity_id`.
    pub fn write_entity(&mut self, entity_id: usize) -> (guard: EntityWriteGuard<'_>)
        ensures
            guard.entity_id == entity_id,
            *guard.archetype == *old(self),
            *final(self) == *final(guard.archetype),
    {
        EntityWriteGuard { entity_id, archetype: self }
    }
}

impl Archetype {
    /// A write access to the component at `component_index` in the storage
    /// of class `component_identifier`.
    pub fn write_component(&mut self, component_identifier: &str, component_index: usize) -> (guard: ComponentWriteGuard<'_>)
        ensures
            *guard.archetype == *old(self),
            guard.component_identifier@ == component_identifier@,
            guard.component_index == component_index,
            *final(self) == *final(guard.archetype),
    {
        ComponentWriteGuard { archetype: self, component_identifier: component_identifier.to_owned(), component_index }
    }
}

} // verus!
