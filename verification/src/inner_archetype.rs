use crate::component::{AnyComponent, EntityId, EntityTypeIdentifier};
use crate::entity_service::RemoveEntityError;
use std::collections::HashMap;
use vstd::prelude::*;

verus! {

broadcast use vstd::std_specs::hash::group_hash_axioms;

/// This store all the information related to a specific entity, is intended
/// to be used by inner_archetype
pub struct EntityCellHead {
    /// The entity id
    pub entity_id: EntityId,
    /// the entity name
    pub name: String,
    /// If false, the entity will be ignored by the systems
    pub enabled: bool,
    /// A marker for an entity that is deleted but that is not yet free into
    /// memory
    pub deleted: bool,
}

impl EntityCellHead {
    /// Returns a EntityCellHead
    pub fn new(entity_id: EntityId, name: String) -> (head: EntityCellHead)
        ensures
            head.entity_id == entity_id,
            head.name@ == name@,
            head.enabled,
            !head.deleted,
    {
        EntityCellHead { entity_id, name, enabled: true, deleted: false }
    }
}

/// Where the encoded state of a component starts among the states of the
/// components of its entity, and how long it is.
pub struct ComponentDecodingInfos {
    pub relative_index: usize,
    pub size: usize,
}

/// The sum of the lengths of the encoded states of the components.
pub open spec fn components_size(components: Seq<AnyComponent>) -> nat
    decreases components.len(),
{
    if components.len() == 0 {
        0
    } else {
        components_size(components.drop_last()) + components.last().data@.len()
    }
}

/// The room that an entity with these components takes in an archetype:
/// its head, the decoding infos of its components, and their states.
pub open spec fn spec_entity_size(components: Seq<AnyComponent>) -> nat {
    vstd::layout::size_of::<EntityCellHead>() + components.len() * vstd::layout::size_of::<
        ComponentDecodingInfos,
    >() + components_size(components)
}

/// Get the size of an entity
///
/// # Arguments
/// * `components` - The list of the entity components
///
pub fn entity_size(components: &[AnyComponent]) -> (size: usize)
    requires
        spec_entity_size(components@) <= usize::MAX,
    ensures
        size == spec_entity_size(components@),
{
    let components_per_entity = components.len();
    let head_size = core::mem::size_of::<EntityCellHead>();
    let infos_size = core::mem::size_of::<ComponentDecodingInfos>();
    proof {
        lemma_components_size_prefix(components@);
        assert(components_per_entity * infos_size <= spec_entity_size(components@)) by (
        nonlinear_arith)
            requires
                spec_entity_size(components@) == head_size + components_per_entity * infos_size
                    + components_size(components@),
        ;
    }
    let mut all_components_size: usize = 0;
    let mut i: usize = 0;
    while i < components_per_entity
        invariant
            components_per_entity == components@.len(),
            i <= components_per_entity,
            all_components_size == components_size(components@.take(i as int)),
            components_size(components@) <= usize::MAX,
            forall|k: int|
                0 <= k <= components@.len() ==> #[trigger] components_size(components@.take(k))
                    <= components_size(components@),
        decreases components_per_entity - i,
    {
        proof {
            assert(components@.take(i + 1).drop_last() =~= components@.take(i as int));
            assert(components@.take(i + 1).last() == components@[i as int]);
            assert(components_size(components@.take(i + 1)) <= components_size(components@));
        }
        all_components_size = all_components_size + components[i].data.len();
        i = i + 1;
    }
    assert(components@.take(components_per_entity as int) =~= components@);
    head_size + components_per_entity * infos_size + all_components_size
}

/// Every prefix of the components is at most as large as all of them.
proof fn lemma_components_size_prefix(components: Seq<AnyComponent>)
    ensures
        forall|k: int|
            0 <= k <= components.len() ==> #[trigger] components_size(components.take(k))
                <= components_size(components),
    decreases components.len(),
{
    if components.len() > 0 {
        let rest = components.drop_last();
        lemma_components_size_prefix(rest);
        assert forall|k: int| 0 <= k <= components.len() implies #[trigger] components_size(
            components.take(k),
        ) <= components_size(components) by {
            if k < components.len() {
                assert(components.take(k) =~= rest.take(k));
            } else {
                assert(components.take(k) =~= components);
            }
        }
    }
}

/// The decoding infos of the components: each state starts where the
/// previous one ends.
pub fn get_component_decoding_infos(components: &[AnyComponent]) -> (infos: Vec<
    ComponentDecodingInfos,
>)
    requires
        components_size(components@) <= usize::MAX,
    ensures
        infos@.len() == components@.len(),
        forall|i: int|
            0 <= i < infos@.len() ==> (#[trigger] infos@[i]).relative_index == components_size(
                components@.take(i),
            ) && infos@[i].size == components@[i].data@.len(),
{
    proof {
        lemma_components_size_prefix(components@);
    }
    let mut infos: Vec<ComponentDecodingInfos> = Vec::new();
    let n = components.len();
    let mut relative_index: usize = 0;
    let mut i: usize = 0;
    while i < n
        invariant
            n == components@.len(),
            i <= n,
            infos@.len() == i,
            relative_index == components_size(components@.take(i as int)),
            components_size(components@) <= usize::MAX,
            forall|k: int|
                0 <= k <= components@.len() ==> #[trigger] components_size(components@.take(k))
                    <= components_size(components@),
            forall|k: int|
                0 <= k < i ==> (#[trigger] infos@[k]).relative_index == components_size(
                    components@.take(k),
                ) && infos@[k].size == components@[k].data@.len(),
        decreases n - i,
    {
        let size = components[i].data.len();
        proof {
            assert(components@.take(i + 1).drop_last() =~= components@.take(i as int));
            assert(components@.take(i + 1).last() == components@[i as int]);
            assert(components_size(components@.take(i + 1)) <= components_size(components@));
        }
        infos.push(ComponentDecodingInfos { relative_index, size });
        relative_index = relative_index + size;
        i = i + 1;
    }
    infos
}

/// The head and the components of an entity of an inner archetype.
pub struct EntityCell {
    pub head: EntityCellHead,
    pub components: Vec<AnyComponent>,
}

/// A collection of entities that share the same component structure, kept
/// cell after cell. When an entity is deleted, its cell is marked as
/// removed, and the next insertion will use this space.
pub struct InnerArchetype {
    identifiers: EntityTypeIdentifier,
    index_map: HashMap<EntityId, usize>,
    removed_entities: Vec<usize>,
    cells: Vec<EntityCell>,
    components_per_entity: usize,
    entity_size: usize,
}

impl InnerArchetype {
    /// The cells, in order.
    pub closed spec fn cells(&self) -> Seq<EntityCell> {
        self.cells@
    }

    /// The cell of each entity.
    pub closed spec fn index(&self) -> Map<EntityId, usize> {
        self.index_map@
    }

    /// The cells free for reuse; the last one is reused first.
    pub closed spec fn removed(&self) -> Seq<usize> {
        self.removed_entities@
    }

    /// The class names of the components of the entities.
    pub closed spec fn type_names(&self) -> Seq<Seq<char>> {
        self.identifiers@
    }

    /// The number of components of each entity, as given at creation.
    pub closed spec fn per_entity(&self) -> nat {
        self.components_per_entity as nat
    }

    /// The room each entity takes, as given at creation.
    pub closed spec fn cell_size(&self) -> nat {
        self.entity_size as nat
    }

    /// The cell the next entity added goes into: the last freed cell if
    /// there is one, else a new cell after the others.
    pub open spec fn next_cell(&self) -> int {
        if self.removed().len() > 0 {
            self.removed().last() as int
        } else {
            self.cells().len() as int
        }
    }

    /// Each entity's cell holds it and is not deleted; each free cell is a
    /// deleted one.
    pub closed spec fn wf(&self) -> bool {
        &&& forall|id: EntityId| #[trigger]
            self.index_map@.contains_key(id) ==> self.index_map@[id] < self.cells@.len()
                && self.cells@[self.index_map@[id] as int].head.entity_id == id
                && !self.cells@[self.index_map@[id] as int].head.deleted
        &&& forall|i: int|
            0 <= i < self.removed_entities@.len() ==> (#[trigger] self.removed_entities@[i])
                < self.cells@.len() && self.cells@[self.removed_entities@[i] as int].head.deleted
        &&& forall|i: int, j: int|
            0 <= i < j < self.removed_entities@.len() ==> #[trigger] self.removed_entities@[i]
                != #[trigger] self.removed_entities@[j]
    }

    /// Returns an InnerArchetype with no entity
    ///
    /// # Arguments
    /// * `identifier` - The archetype identifier
    /// * `components_per_entity` - The number of components stored in one entity
    /// * `entity_size` - The room that one entity takes
    ///
    pub fn new(identifier: EntityTypeIdentifier, components_per_entity: usize, entity_size: usize) -> (res:
        InnerArchetype)
        ensures
            res.wf(),
            res.cells().len() == 0,
            res.index() == Map::<EntityId, usize>::empty(),
            res.removed().len() == 0,
            res.type_names() == identifier@,
            res.per_entity() == components_per_entity,
            res.cell_size() == entity_size,
    {
        InnerArchetype {
            identifiers: identifier,
            index_map: HashMap::new(),
            removed_entities: Vec::new(),
            cells: Vec::new(),
            components_per_entity,
            entity_size,
        }
    }

    /// Returns the entity type identifier of the archetype
    pub fn get_type_identifier(&self) -> (id: &EntityTypeIdentifier)
        ensures
            id@ == self.type_names(),
    {
        &self.identifiers
    }

    /// Add an entity into the archetype, in the last freed cell if there is
    /// one, else in a new cell
    ///
    /// # Arguments
    /// * `entity_id` - The entity id
    /// * `name` - The entity name
    /// * `components` - The entity components
    ///
    pub fn add(&mut self, entity_id: EntityId, name: String, components: Vec<AnyComponent>)
        requires
            old(self).wf(),
        ensures
            final(self).wf(),
            final(self).type_names() == old(self).type_names(),
            ({
                let pos = old(self).next_cell();
                &&& final(self).index() == old(self).index().insert(entity_id, pos as usize)
                &&& final(self).removed() == if old(self).removed().len() > 0 {
                    old(self).removed().drop_last()
                } else {
                    old(self).removed()
                }
                &&& final(self).cells().len() == if old(self).removed().len() > 0 {
                    old(self).cells().len()
                } else {
                    old(self).cells().len() + 1
                }
                &&& final(self).cells()[pos].head.entity_id == entity_id
                &&& final(self).cells()[pos].head.name@ == name@
                &&& final(self).cells()[pos].head.enabled
                &&& !final(self).cells()[pos].head.deleted
                &&& final(self).cells()[pos].components@ == components@
                &&& forall|i: int|
                    0 <= i < old(self).cells().len() && i != pos ==> #[trigger] final(self).cells()[i] == old(self).cells()[i]
            }),
    {
        let ghost old_cells = self.cells@;
        let cell = EntityCell { head: EntityCellHead::new(entity_id, name), components };
        let position;
        match self.removed_entities.pop() {
            Some(free_cell) => {
                proof {
                    assert(old(self).removed_entities@[old(self).removed_entities@.len() - 1]
                        == free_cell);
                }
                self.cells.set(free_cell, cell);
                position = free_cell;
            },
            None => {
                position = self.cells.len();
                self.cells.push(cell);
            },
        }
        self.index_map.insert(entity_id, position);
        proof {
            assert forall|id: EntityId| #[trigger]
                self.index_map@.contains_key(id) implies self.index_map@[id] < self.cells@.len()
                && self.cells@[self.index_map@[id] as int].head.entity_id == id
                && !self.cells@[self.index_map@[id] as int].head.deleted by {
                if id != entity_id {
                    assert(old(self).index_map@.contains_key(id));
                    let p = old(self).index_map@[id] as int;
                    if p == position {
                        assert(old(self).removed_entities@.len() > 0);
                    }
                }
            }
            assert forall|i: int| 0 <= i < self.removed_entities@.len() implies (
            #[trigger] self.removed_entities@[i]) < self.cells@.len()
                && self.cells@[self.removed_entities@[i] as int].head.deleted by {
                assert(self.removed_entities@[i] == old(self).removed_entities@[i]);
                let p = self.removed_entities@[i] as int;
                if p == position {
                    let last = old(self).removed_entities@.len() - 1;
                    assert(old(self).removed_entities@[i] != old(self).removed_entities@[last]);
                }
            }
            assert forall|i: int, j: int|
                0 <= i < j < self.removed_entities@.len() implies #[trigger] self.removed_entities@[i]
                != #[trigger] self.removed_entities@[j] by {
                assert(self.removed_entities@[i] == old(self).removed_entities@[i]);
                assert(self.removed_entities@[j] == old(self).removed_entities@[j]);
            }
        }
    }

    /// Get a handle over an entity
    ///
    /// # Arguments
    /// * `entity_id` - The entity id
    ///
    pub fn get(&self, entity_id: EntityId) -> (res: Option<crate::rwlock::EntitySharedRwLock<'_>>)
        requires
            self.wf(),
        ensures
            res is Some <==> self.index().contains_key(entity_id),
            res matches Some(lock) ==> lock.inner == self && lock.buffer_index
                == self.index()[entity_id] && lock.buffer_index < self.cells().len(),
    {
        match self.index_map.get(&entity_id) {
            Some(index) => Some(self.get_by_index(*index)),
            None => None,
        }
    }

    /// Get a handle over the entity of a cell
    ///
    /// # Arguments
    /// * `index` - The cell
    ///
    pub fn get_by_index(&self, index: usize) -> (res: crate::rwlock::EntitySharedRwLock<'_>)
        ensures
            res.inner == self,
            res.buffer_index == index,
            res.identifier@ == self.type_names(),
    {
        crate::rwlock::EntitySharedRwLock::new(
            self,
            index,
            self.identifiers.clone(),
            self.components_per_entity,
            self.entity_size,
        )
    }

    /// The components of the entity in cell `index`.
    pub fn cell_components(&self, index: usize) -> (components: &[AnyComponent])
        requires
            index < self.cells().len(),
        ensures
            components@ == self.cells()[index as int].components@,
    {
        self.cells[index].components.as_slice()
    }

    /// A write access to the entity of cell `index`: its head, and its
    /// components for writing.
    pub fn write_cell(&mut self, index: usize) -> (guard: crate::rwlock::EntityWriteGuard<'_>)
        requires
            old(self).wf(),
            index < old(self).cells().len(),
        ensures
            *guard.entity_head == old(self).cells()[index as int].head,
            guard.components@ == old(self).cells()[index as int].components@,
            final(self).wf(),
            final(self).index() == old(self).index(),
            final(self).removed() == old(self).removed(),
            final(self).type_names() == old(self).type_names(),
            final(self).cells().len() == old(self).cells().len(),
            final(self).cells()[index as int].head == old(self).cells()[index as int].head,
            final(self).cells()[index as int].components@ == final(guard.components)@,
            forall|i: int|
                0 <= i < old(self).cells().len() && i != index ==> #[trigger] final(self).cells()[i]
                    == old(self).cells()[i],
    {
        let cell = &mut self.cells[index];
        let entity_head: &EntityCellHead = &cell.head;
        let components = cell.components.as_mut_slice();
        crate::rwlock::EntityWriteGuard { entity_head, components }
    }

    /// The head of the entity in cell `index`.
    pub fn cell_head(&self, index: usize) -> (head: &EntityCellHead)
        requires
            index < self.cells().len(),
        ensures
            *head == self.cells()[index as int].head,
    {
        &self.cells[index].head
    }

    /// Remove an entity based on its id: its cell is marked as deleted and
    /// freed for a next insertion
    ///
    /// # Arguments
    /// * `entity_id` - The entity id
    ///
    pub fn remove(&mut self, entity_id: EntityId) -> (res: Result<(), RemoveEntityError>)
        requires
            old(self).wf(),
        ensures
            final(self).wf(),
            final(self).type_names() == old(self).type_names(),
            res is Ok <==> old(self).index().contains_key(entity_id),
            res is Ok ==> ({
                let pos = old(self).index()[entity_id] as int;
                &&& final(self).index() == old(self).index().remove(entity_id)
                &&& final(self).removed() == old(self).removed().push(pos as usize)
                &&& final(self).cells().len() == old(self).cells().len()
                &&& final(self).cells()[pos].head.deleted
                &&& final(self).cells()[pos].head.entity_id == old(self).cells()[pos].head.entity_id
                &&& final(self).cells()[pos].components@ == old(self).cells()[pos].components@
                &&& forall|i: int|
                    0 <= i < old(self).cells().len() && i != pos ==> #[trigger] final(self).cells()[i] == old(self).cells()[i]
            }),
            res is Err ==> final(self).index() == old(self).index() && final(self).cells()
                == old(self).cells() && final(self).removed() == old(self).removed(),
    {
        match self.index_map.remove(&entity_id) {
            Some(entity_index) => {
                let mut cell = self.cells.remove(entity_index);
                cell.head.deleted = true;
                let ghost updated = cell;
                self.cells.insert(entity_index, cell);
                assert(self.cells@ =~= old(self).cells@.update(entity_index as int, updated));
                self.removed_entities.push(entity_index);
                proof {
                    let pos = entity_index as int;
                    assert forall|i: int|
                        0 <= i < old(self).cells@.len() && i != pos implies #[trigger] self.cells@[i]
                        == old(self).cells@[i] by {}
                    assert forall|id: EntityId| #[trigger]
                        self.index_map@.contains_key(id) implies self.index_map@[id]
                        < self.cells@.len() && self.cells@[self.index_map@[id] as int].head.entity_id
                        == id && !self.cells@[self.index_map@[id] as int].head.deleted by {
                        assert(old(self).index_map@.contains_key(id));
                        assert(id != entity_id);
                    }
                    assert forall|i: int| 0 <= i < self.removed_entities@.len() implies (
                    #[trigger] self.removed_entities@[i]) < self.cells@.len()
                        && self.cells@[self.removed_entities@[i] as int].head.deleted by {
                        if i < old(self).removed_entities@.len() {
                            assert(self.removed_entities@[i] == old(self).removed_entities@[i]);
                        }
                    }
                    assert forall|i: int, j: int|
                        0 <= i < j < self.removed_entities@.len() implies #[trigger] self.removed_entities@[i]
                        != #[trigger] self.removed_entities@[j] by {
                        if j == old(self).removed_entities@.len() {
                            assert(self.removed_entities@[i] == old(self).removed_entities@[i]);
                            assert(old(self).cells@[old(self).removed_entities@[i] as int].head.deleted);
                        } else {
                            assert(self.removed_entities@[i] == old(self).removed_entities@[i]);
                            assert(self.removed_entities@[j] == old(self).removed_entities@[j]);
                        }
                    }
                }
                Ok(())
            },
            None => {
                assert(self.index_map@ =~= old(self).index_map@);
                Err(RemoveEntityError::NotFound)
            },
        }
    }
}


/// Once an entity is removed, the next entity added takes its cell, and
/// no new cell is made.
pub proof fn lemma_add_reuses_removed_cell(
    before: InnerArchetype,
    after: InnerArchetype,
    entity_id: EntityId,
)
    requires
        before.wf(),
        before.index().contains_key(entity_id),
        after.removed() == before.removed().push(before.index()[entity_id]),
        after.cells().len() == before.cells().len(),
    ensures
        after.next_cell() == before.index()[entity_id],
        0 <= after.next_cell() < after.cells().len(),
{
}

} // verus!
