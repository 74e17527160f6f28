use crate::archetype::{Archetype, EntityReference};
use crate::component::{EntityId, StaticComponent};
use crate::guards::{TypedComponentReadGuard, TypedComponentWriteGuard};
use crate::query::{class_slots, entity_valid, QueryInjectable, RequestedEntityGuard};
use core::marker::PhantomData;
use vstd::prelude::*;

verus! {

/// A parameter of a typed query: which archetypes it keeps and what it
/// gives for each entity.
pub trait QueryParam<'a> {
    /// What the parameter gives.
    type Item;

    /// Whether entities of `arch` take part in a query with this parameter.
    spec fn keeps(arch: Archetype) -> bool;

    /// Whether the parameter reads the entity.
    spec fn reads() -> bool;

    /// Whether the parameter writes the entity.
    spec fn writes() -> bool;

    /// The accesses the parameter works with.
    spec fn accepts(guard: RequestedEntityGuard) -> bool;

    /// `items` are what the parameter gives for `entity` under `guard`.
    spec fn items(entity: EntityReference<'a>, guard: RequestedEntityGuard, items: Seq<Self::Item>) -> bool;

    /// Whether entities of `archetype` take part in the query.
    fn filter_archetype(archetype: &Archetype) -> (keep: bool)
        ensures
            keep == Self::keeps(*archetype),
    ;

    /// Does this require a read guard over the reference
    fn require_read() -> (b: bool)
        ensures
            b == Self::reads(),
    ;

    /// Does this require a write guard over the reference
    fn require_write() -> (b: bool)
        ensures
            b == Self::writes(),
    ;

    /// What the parameter gives for an entity.
    fn iter_entity_components(entity: EntityReference<'a>, guard: RequestedEntityGuard) -> (res: Vec<
        Self::Item,
    >)
        requires
            entity_valid(entity),
            Self::accepts(guard),
        ensures
            Self::items(entity, guard, res@),
    ;
}

/// The entity reference
pub struct WithEntity;

impl<'a> QueryParam<'a> for WithEntity {
    type Item = EntityReference<'a>;

    open spec fn keeps(arch: Archetype) -> bool {
        true
    }

    open spec fn reads() -> bool {
        true
    }

    open spec fn writes() -> bool {
        false
    }

    open spec fn accepts(guard: RequestedEntityGuard) -> bool {
        true
    }

    open spec fn items(entity: EntityReference<'a>, guard: RequestedEntityGuard, items: Seq<Self::Item>) -> bool {
        <EntityReference<'a> as QueryInjectable<'a>>::injected(entity, items)
    }

    fn filter_archetype(archetype: &Archetype) -> (keep: bool) {
        true
    }

    fn require_read() -> (b: bool) {
        true
    }

    fn require_write() -> (b: bool) {
        false
    }

    fn iter_entity_components(entity: EntityReference<'a>, guard: RequestedEntityGuard) -> (res: Vec<
        Self::Item,
    >) {
        <EntityReference<'a> as QueryInjectable<'a>>::from_components(entity, RequestedEntityGuard::Read)
    }
}

/// The entity id
pub struct WithId;

impl<'a> QueryParam<'a> for WithId {
    type Item = EntityId;

    open spec fn keeps(arch: Archetype) -> bool {
        true
    }

    open spec fn reads() -> bool {
        true
    }

    open spec fn writes() -> bool {
        false
    }

    open spec fn accepts(guard: RequestedEntityGuard) -> bool {
        true
    }

    open spec fn items(entity: EntityReference<'a>, guard: RequestedEntityGuard, items: Seq<Self::Item>) -> bool {
        <EntityId as QueryInjectable<'a>>::injected(entity, items)
    }

    fn filter_archetype(archetype: &Archetype) -> (keep: bool) {
        true
    }

    fn require_read() -> (b: bool) {
        true
    }

    fn require_write() -> (b: bool) {
        false
    }

    fn iter_entity_components(entity: EntityReference<'a>, guard: RequestedEntityGuard) -> (res: Vec<
        Self::Item,
    >) {
        <EntityId as QueryInjectable<'a>>::from_components(entity, RequestedEntityGuard::Read)
    }
}

/// The entity name
pub struct WithName;

impl<'a> QueryParam<'a> for WithName {
    type Item = String;

    open spec fn keeps(arch: Archetype) -> bool {
        true
    }

    open spec fn reads() -> bool {
        true
    }

    open spec fn writes() -> bool {
        false
    }

    open spec fn accepts(guard: RequestedEntityGuard) -> bool {
        true
    }

    open spec fn items(entity: EntityReference<'a>, guard: RequestedEntityGuard, items: Seq<Self::Item>) -> bool {
        <String as QueryInjectable<'a>>::injected(entity, items)
    }

    fn filter_archetype(archetype: &Archetype) -> (keep: bool) {
        true
    }

    fn require_read() -> (b: bool) {
        true
    }

    fn require_write() -> (b: bool) {
        false
    }

    fn iter_entity_components(entity: EntityReference<'a>, guard: RequestedEntityGuard) -> (res: Vec<
        Self::Item,
    >) {
        <String as QueryInjectable<'a>>::from_components(entity, RequestedEntityGuard::Read)
    }
}

/// Is entity enabled
pub struct WithEnabled;

impl<'a> QueryParam<'a> for WithEnabled {
    type Item = bool;

    open spec fn keeps(arch: Archetype) -> bool {
        true
    }

    open spec fn reads() -> bool {
        true
    }

    open spec fn writes() -> bool {
        false
    }

    open spec fn accepts(guard: RequestedEntityGuard) -> bool {
        true
    }

    open spec fn items(entity: EntityReference<'a>, guard: RequestedEntityGuard, items: Seq<Self::Item>) -> bool {
        <bool as QueryInjectable<'a>>::injected(entity, items)
    }

    fn filter_archetype(archetype: &Archetype) -> (keep: bool) {
        true
    }

    fn require_read() -> (b: bool) {
        true
    }

    fn require_write() -> (b: bool) {
        false
    }

    fn iter_entity_components(entity: EntityReference<'a>, guard: RequestedEntityGuard) -> (res: Vec<
        Self::Item,
    >) {
        <bool as QueryInjectable<'a>>::from_components(entity, RequestedEntityGuard::Read)
    }
}

/// A readable component reference; only the archetypes that have the
/// class take part in the query
pub struct With<T> {
    pub phantom: PhantomData<T>,
}

impl<'a, T: StaticComponent> QueryParam<'a> for With<T> {
    type Item = TypedComponentReadGuard<'a, T>;

    open spec fn keeps(arch: Archetype) -> bool {
        arch.type_names().contains(T::component_name())
    }

    open spec fn reads() -> bool {
        true
    }

    open spec fn writes() -> bool {
        false
    }

    open spec fn accepts(guard: RequestedEntityGuard) -> bool {
        guard != RequestedEntityGuard::NoAccess
    }

    open spec fn items(entity: EntityReference<'a>, guard: RequestedEntityGuard, items: Seq<Self::Item>) -> bool {
        <TypedComponentReadGuard<'a, T> as QueryInjectable<'a>>::injected(entity, items)
    }

    fn filter_archetype(archetype: &Archetype) -> (keep: bool) {
        let name = T::get_component_name();
        archetype.get_type_identifier().contains(name.as_str())
    }

    fn require_read() -> (b: bool) {
        true
    }

    fn require_write() -> (b: bool) {
        false
    }

    fn iter_entity_components(entity: EntityReference<'a>, guard: RequestedEntityGuard) -> (res: Vec<
        Self::Item,
    >) {
        <TypedComponentReadGuard<'a, T> as QueryInjectable<'a>>::from_components(entity, guard)
    }
}

/// A readable optional component reference: the components of the class,
/// or a single `None` when the entity has none
pub struct WithOptional<T> {
    pub phantom: PhantomData<T>,
}

impl<'a, T: StaticComponent> QueryParam<'a> for WithOptional<T> {
    type Item = Option<TypedComponentReadGuard<'a, T>>;

    open spec fn keeps(arch: Archetype) -> bool {
        true
    }

    open spec fn reads() -> bool {
        true
    }

    open spec fn writes() -> bool {
        false
    }

    open spec fn accepts(guard: RequestedEntityGuard) -> bool {
        true
    }

    open spec fn items(entity: EntityReference<'a>, guard: RequestedEntityGuard, items: Seq<Self::Item>) -> bool {
        if guard == RequestedEntityGuard::NoAccess {
            items == seq![Option::<TypedComponentReadGuard<'a, T>>::None]
        } else {
            exists|found: Seq<TypedComponentReadGuard<'a, T>>|
                <TypedComponentReadGuard<'a, T> as QueryInjectable<'a>>::injected(entity, found)
                    && #[trigger] optional_items(found) == items
        }
    }

    fn filter_archetype(archetype: &Archetype) -> (keep: bool) {
        true
    }

    fn require_read() -> (b: bool) {
        true
    }

    fn require_write() -> (b: bool) {
        false
    }

    fn iter_entity_components(entity: EntityReference<'a>, guard: RequestedEntityGuard) -> (res: Vec<
        Self::Item,
    >) {
        let mut res: Vec<Option<TypedComponentReadGuard<'a, T>>> = Vec::new();
        if guard == RequestedEntityGuard::NoAccess {
            res.push(None);
            assert(res@ =~= seq![Option::<TypedComponentReadGuard<'a, T>>::None]);
            return res;
        }
        let found = <TypedComponentReadGuard<'a, T> as QueryInjectable<'a>>::from_components(
            entity,
            guard,
        );
        let ghost all = found@;
        if found.len() == 0 {
            res.push(None);
            assert(res@ =~= optional_items(all));
            return res;
        }
        let mut found = found;
        let ghost mut done: int = 0;
        while found.len() > 0
            invariant
                0 <= done <= all.len(),
                all.len() > 0,
                found@ == all.skip(done),
                res@ == all.take(done).map_values(
                    |g: TypedComponentReadGuard<'a, T>| Some(g),
                ),
            decreases found@.len(),
        {
            let guard = found.remove(0);
            proof {
                assert(guard == all[done]);
                assert(found@ =~= all.skip(done + 1));
            }
            res.push(Some(guard));
            proof {
                assert(res@ =~= all.take(done + 1).map_values(
                    |g: TypedComponentReadGuard<'a, T>| Some(g),
                ));
                done = done + 1;
            }
        }
        assert(all.take(all.len() as int) =~= all);
        assert(res@ =~= optional_items(all));
        res
    }
}

/// The place of a component of class `T` that a query gives for writing:
/// the class of the storage that holds it and its index there. The holder
/// of the archetype writes the component through [`Self::write`].
pub struct TypedComponentWriteSlot<T> {
    pub component_identifier: String,
    pub component_index: usize,
    pub phantom: PhantomData<T>,
}

impl<T: StaticComponent> TypedComponentWriteSlot<T> {
    /// A write access to the component of this place in `archetype`.
    pub fn write<'b>(&self, archetype: &'b mut Archetype) -> (guard: TypedComponentWriteGuard<'b, T>)
        ensures
            *guard.component_writer.archetype == *old(archetype),
            guard.component_writer.component_identifier@ == self.component_identifier@,
            guard.component_writer.component_index == self.component_index,
            *final(archetype) == *final(guard.component_writer.archetype),
    {
        let writer = archetype.write_component(self.component_identifier.as_str(), self.component_index);
        TypedComponentWriteGuard { component_writer: writer, phantom: PhantomData }
    }
}

/// `slots` are the places of the components of class `name` of `entity`,
/// in order.
pub open spec fn write_slots<'a, T>(entity: EntityReference<'a>, name: Seq<char>, slots: Seq<
    TypedComponentWriteSlot<T>,
>) -> bool {
    &&& slots.len() == class_slots(entity, name).len()
    &&& forall|i: int|
        0 <= i < slots.len() ==> (#[trigger] slots[i]).component_identifier@ == name
            && slots[i].component_index == class_slots(entity, name)[i].1
}

/// The places of the components of class `T` of an entity.
fn component_write_slots<'a, T: StaticComponent>(entity: EntityReference<'a>) -> (res: Vec<
    TypedComponentWriteSlot<T>,
>)
    requires
        entity_valid(entity),
    ensures
        write_slots(entity, T::component_name(), res@),
{
    let readers = <TypedComponentReadGuard<'a, T> as QueryInjectable<'a>>::from_components(
        entity,
        RequestedEntityGuard::Write,
    );
    let ghost slots = class_slots(entity, T::component_name());
    let mut res: Vec<TypedComponentWriteSlot<T>> = Vec::new();
    let n = readers.len();
    let mut i: usize = 0;
    while i < n
        invariant
            n == readers@.len(),
            n == slots.len(),
            slots == class_slots(entity, T::component_name()),
            forall|k: int|
                0 <= k < n ==> (#[trigger] readers@[k]).component_reader.component_identifier@
                    == T::component_name() && readers@[k].component_reader.component_index
                    == slots[k].1,
            i <= n,
            res@.len() == i,
            forall|k: int|
                0 <= k < i ==> (#[trigger] res@[k]).component_identifier@ == T::component_name()
                    && res@[k].component_index == slots[k].1,
        decreases n - i,
    {
        let reader = &readers[i].component_reader;
        res.push(
            TypedComponentWriteSlot {
                component_identifier: reader.component_identifier.clone(),
                component_index: reader.component_index,
                phantom: PhantomData,
            },
        );
        i = i + 1;
    }
    res
}

/// A writable component reference; only the archetypes that have the class
/// take part in the query. It gives the places of the components, which the
/// holder of the archetype writes
pub struct WithMut<T> {
    pub phantom: PhantomData<T>,
}

impl<'a, T: StaticComponent> QueryParam<'a> for WithMut<T> {
    type Item = TypedComponentWriteSlot<T>;

    open spec fn keeps(arch: Archetype) -> bool {
        arch.type_names().contains(T::component_name())
    }

    open spec fn reads() -> bool {
        false
    }

    open spec fn writes() -> bool {
        true
    }

    open spec fn accepts(guard: RequestedEntityGuard) -> bool {
        guard == RequestedEntityGuard::Write
    }

    open spec fn items(entity: EntityReference<'a>, guard: RequestedEntityGuard, items: Seq<Self::Item>) -> bool {
        write_slots(entity, T::component_name(), items)
    }

    fn filter_archetype(archetype: &Archetype) -> (keep: bool) {
        let name = T::get_component_name();
        archetype.get_type_identifier().contains(name.as_str())
    }

    fn require_read() -> (b: bool) {
        false
    }

    fn require_write() -> (b: bool) {
        true
    }

    fn iter_entity_components(entity: EntityReference<'a>, guard: RequestedEntityGuard) -> (res: Vec<
        Self::Item,
    >) {
        component_write_slots(entity)
    }
}

/// A writable optional component reference: the places of the components of
/// the class, or a single `None` when the entity has none or when the
/// access does not allow writing
pub struct WithOptionMut<T> {
    pub phantom: PhantomData<T>,
}

/// The places found wrapped in `Some`, or a single `None` when none was
/// found.
pub open spec fn optional_slots<T>(found: Seq<TypedComponentWriteSlot<T>>) -> Seq<
    Option<TypedComponentWriteSlot<T>>,
> {
    if found.len() == 0 {
        seq![None]
    } else {
        found.map_values(|s: TypedComponentWriteSlot<T>| Some(s))
    }
}

impl<'a, T: StaticComponent> QueryParam<'a> for WithOptionMut<T> {
    type Item = Option<TypedComponentWriteSlot<T>>;

    open spec fn keeps(arch: Archetype) -> bool {
        true
    }

    open spec fn reads() -> bool {
        false
    }

    open spec fn writes() -> bool {
        true
    }

    open spec fn accepts(guard: RequestedEntityGuard) -> bool {
        true
    }

    open spec fn items(entity: EntityReference<'a>, guard: RequestedEntityGuard, items: Seq<Self::Item>) -> bool {
        if guard != RequestedEntityGuard::Write {
            items == seq![Option::<TypedComponentWriteSlot<T>>::None]
        } else {
            exists|found: Seq<TypedComponentWriteSlot<T>>|
                write_slots(entity, T::component_name(), found) && #[trigger] optional_slots(found)
                    == items
        }
    }

    fn filter_archetype(archetype: &Archetype) -> (keep: bool) {
        true
    }

    fn require_read() -> (b: bool) {
        false
    }

    fn require_write() -> (b: bool) {
        true
    }

    fn iter_entity_components(entity: EntityReference<'a>, guard: RequestedEntityGuard) -> (res: Vec<
        Self::Item,
    >) {
        let mut res: Vec<Option<TypedComponentWriteSlot<T>>> = Vec::new();
        if guard != RequestedEntityGuard::Write {
            res.push(None);
            assert(res@ =~= seq![Option::<TypedComponentWriteSlot<T>>::None]);
            return res;
        }
        let found = component_write_slots::<T>(entity);
        let ghost all = found@;
        if found.len() == 0 {
            res.push(None);
            assert(res@ =~= optional_slots(all));
            return res;
        }
        let mut found = found;
        let ghost mut done: int = 0;
        while found.len() > 0
            invariant
                0 <= done <= all.len(),
                all.len() > 0,
                found@ == all.skip(done),
                res@ == all.take(done).map_values(|s: TypedComponentWriteSlot<T>| Some(s)),
            decreases found@.len(),
        {
            let slot = found.remove(0);
            proof {
                assert(slot == all[done]);
                assert(found@ =~= all.skip(done + 1));
            }
            res.push(Some(slot));
            proof {
                assert(res@ =~= all.take(done + 1).map_values(
                    |s: TypedComponentWriteSlot<T>| Some(s),
                ));
                done = done + 1;
            }
        }
        assert(all.take(all.len() as int) =~= all);
        assert(res@ =~= optional_slots(all));
        res
    }
}

/// The components found wrapped in `Some`, or a single `None` when none
/// was found.
pub open spec fn optional_items<'a, T>(found: Seq<TypedComponentReadGuard<'a, T>>) -> Seq<
    Option<TypedComponentReadGuard<'a, T>>,
> {
    if found.len() == 0 {
        seq![None]
    } else {
        found.map_values(|g: TypedComponentReadGuard<'a, T>| Some(g))
    }
}

/// A parameter that asks for a class keeps exactly the archetypes whose
/// identifier lists that class, whether it reads or writes it; an optional
/// parameter keeps every archetype, its entities getting `None` where the
/// class is missing; the entity, id, name and enabled flag parameters keep
/// every archetype too.
pub proof fn lemma_class_parameters_keep<'a, T: StaticComponent>(arch: Archetype)
    ensures
        <WithEntity as QueryParam<'a>>::keeps(arch),
        <WithId as QueryParam<'a>>::keeps(arch),
        <WithName as QueryParam<'a>>::keeps(arch),
        <WithEnabled as QueryParam<'a>>::keeps(arch),
        <With<T> as QueryParam<'a>>::keeps(arch) <==> arch.type_names().contains(T::component_name()),
        <WithMut<T> as QueryParam<'a>>::keeps(arch) <==> arch.type_names().contains(
            T::component_name(),
        ),
        <WithOptional<T> as QueryParam<'a>>::keeps(arch),
        <WithOptionMut<T> as QueryParam<'a>>::keeps(arch),
{
}

/// An optional parameter gives one `Some` per component found, in order,
/// and a single `None` exactly when none was found.
pub proof fn lemma_optional_items<'a, T>(found: Seq<TypedComponentReadGuard<'a, T>>)
    ensures
        found.len() == 0 ==> optional_items(found) == seq![Option::<TypedComponentReadGuard<'a, T>>::None],
        found.len() > 0 ==> optional_items(found).len() == found.len() && forall|i: int|
            0 <= i < found.len() ==> #[trigger] optional_items(found)[i] == Some(found[i]),
{
}

} // verus!
