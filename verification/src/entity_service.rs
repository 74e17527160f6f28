use crate::archetype::{
    enabled_indices,
    lemma_enabled_indices,
    lemma_enabled_indices_exact,
    Archetype,
    EntityProperties,
    EntityReference,
};
use crate::component::{class_names, get_type_identifier_by_any, AnyComponent, EntityId, EntityTypeIdentifier};
use crate::extension_component_service::component_views;
use crate::grouping::{names_ordered, sort_components_by_name, sorted_by_name};
use crate::guards::EntityReadGuard;
use std::collections::HashMap;
use vstd::prelude::*;

verus! {

broadcast use vstd::std_specs::hash::group_hash_axioms;

/// An error over entity deletion
pub enum RemoveEntityError {
    /// The entity don't exists in any archetype storage
    NotFound,
}

/// Where an entity recorded at `p` stands once the entities of archetype
/// `a` behind position `e`, up to position `k`, moved down by one.
pub open spec fn shifted(p: (usize, usize), a: usize, e: usize, k: int) -> (usize, usize) {
    if p.0 == a && p.1 > e && p.1 <= k {
        (p.0, (p.1 - 1) as usize)
    } else {
        p
    }
}

/// The positions (archetype, entity) of the enabled entities of the
/// archetypes, archetype after archetype.
pub open spec fn enabled_positions(archetypes: Seq<Archetype>) -> Seq<(int, int)>
    decreases archetypes.len(),
{
    if archetypes.len() == 0 {
        Seq::empty()
    } else {
        let a = archetypes.len() - 1;
        enabled_positions(archetypes.drop_last()) + enabled_indices(
            archetypes.last().enabled_flags(),
        ).map_values(|e: int| (a, e))
    }
}

/// The positions (archetype, entity) of every entity of the archetypes,
/// archetype after archetype.
pub open spec fn entity_positions(archetypes: Seq<Archetype>) -> Seq<(int, int)>
    decreases archetypes.len(),
{
    if archetypes.len() == 0 {
        Seq::empty()
    } else {
        let a = archetypes.len() - 1;
        entity_positions(archetypes.drop_last()) + Seq::new(
            archetypes.last().entity_count(),
            |e: int| (a, e),
        )
    }
}

/// A save for one entity: its id, name, enabled flag and components.
pub struct EntitySnapshot {
    pub entity_id: EntityId,
    pub name: String,
    pub enabled: bool,
    pub components: Vec<AnyComponent>,
}

/// A save for the entities stored in an [’EntityService’]
pub struct EntityServiceSnapshot(pub Vec<EntitySnapshot>);

/// The id, name, enabled flag and components of a saved entity.
pub open spec fn snapshot_view(s: EntitySnapshot) -> (EntityId, Seq<char>, bool, Seq<(Seq<char>, Seq<u8>)>) {
    (s.entity_id, s.name@, s.enabled, component_views(s.components@))
}

/// `snap` saves, in order, every entity of the archetypes of `s`,
/// archetype after archetype.
pub open spec fn snapshot_of(s: EntityService, snap: Seq<EntitySnapshot>) -> bool {
    &&& snap.len() == entity_positions(s.archetype_seq()).len()
    &&& forall|i: int|
        0 <= i < snap.len() ==> snapshot_view(#[trigger] snap[i]) == s.saved_at(
            entity_positions(s.archetype_seq())[i].0,
            entity_positions(s.archetype_seq())[i].1,
        )
}

/// `s` holds exactly the entities saved in `snap`, each as its last save
/// left it, with its components sorted by class name.
pub open spec fn restored_from(snap: Seq<EntitySnapshot>, s: EntityService) -> bool {
    &&& forall|id: EntityId|
        #[trigger] s.contains(id) <==> exists|i: int| 0 <= i < snap.len() && snap[i].entity_id == id
    &&& forall|i: int|
        0 <= i < snap.len() && (forall|j: int| i < j < snap.len() ==> snap[j].entity_id != snap[i].entity_id)
            ==> #[trigger] s.entity_view(snap[i].entity_id) == (
            snap[i].name@,
            snap[i].enabled,
            sorted_by_name(snap[i].components@),
        )
}

/// A storage for every entities, use [’Archetypes’] to store entities of
/// different types
pub struct EntityService {
    id_incrementer: u64,
    index_map: HashMap<EntityId, (usize, usize)>,
    archetypes: Vec<Archetype>,
}

impl EntityService {
    /// The counter from which new ids are drawn.
    pub closed spec fn next_id(&self) -> nat {
        self.id_incrementer as nat
    }

    /// Where each entity is: (archetype, position in the archetype).
    pub closed spec fn index(&self) -> Map<EntityId, (usize, usize)> {
        self.index_map@
    }

    /// The archetypes, in creation order.
    pub closed spec fn archetype_seq(&self) -> Seq<Archetype> {
        self.archetypes@
    }

    /// Whether an entity with this id is stored.
    pub open spec fn contains(&self, id: EntityId) -> bool {
        self.index().contains_key(id)
    }

    /// The archetype that stores entity `id`.
    pub open spec fn entity_archetype(&self, id: EntityId) -> Archetype {
        self.archetype_seq()[self.index()[id].0 as int]
    }

    /// The position of entity `id` in its archetype.
    pub open spec fn entity_position(&self, id: EntityId) -> int {
        self.index()[id].1 as int
    }

    /// The name, enabled flag and components of entity `id`.
    pub open spec fn entity_view(&self, id: EntityId) -> (Seq<char>, bool, Seq<AnyComponent>) {
        let arch = self.entity_archetype(id);
        let e = self.entity_position(id);
        (arch.names()[e], arch.enabled_flags()[e], arch.entity_components(e))
    }

    /// Every archetype is well formed.
    closed spec fn archetypes_wf(&self) -> bool {
        forall|a: int| 0 <= a < self.archetypes@.len() ==> (#[trigger] self.archetypes@[a]).wf()
    }

    /// Every recorded position holds the entity of that id, and every id is
    /// below the counter.
    closed spec fn entries_valid(&self) -> bool {
        forall|id: EntityId| #[trigger] self.index_map@.contains_key(id) ==> self.entry_ok(id)
    }

    /// The recorded position of `id` holds the entity `id`, and `id` is below
    /// the counter.
    closed spec fn entry_ok(&self, id: EntityId) -> bool {
        let p = self.index_map@[id];
        &&& (p.0 as int) < self.archetypes@.len()
        &&& (p.1 as int) < self.archetypes@[p.0 as int].entity_count()
        &&& self.archetypes@[p.0 as int].entity_ids()[p.1 as int] == id
        &&& id < self.id_incrementer
    }

    /// The archetypes are well formed and the index points at the entities.
    pub closed spec fn wf(&self) -> bool {
        self.archetypes_wf() && self.entries_valid()
    }

    /// Every stored entity but the one at (`a`, `e`) is indexed, at the
    /// position where it stands.
    closed spec fn indexes_all_but(&self, a: int, e: int) -> bool {
        forall|b: int, f: int|
            #![trigger self.archetypes@[b].entity_ids()[f]]
            0 <= b < self.archetypes@.len() && 0 <= f < self.archetypes@[b].entity_count() && (b
                != a || f != e) ==> self.index_map@.contains_key(self.archetypes@[b].entity_ids()[f])
                && self.index_map@[self.archetypes@[b].entity_ids()[f]].0 == b
                && self.index_map@[self.archetypes@[b].entity_ids()[f]].1 == f
    }

    /// Every stored entity is indexed, at the position where it stands.
    pub open spec fn indexes_every_entity(&self) -> bool {
        forall|a: int, e: int|
            #![trigger self.archetype_seq()[a].entity_ids()[e]]
            0 <= a < self.archetype_seq().len() && 0 <= e < self.archetype_seq()[a].entity_count()
                ==> self.contains(self.archetype_seq()[a].entity_ids()[e]) && self.index()[self.archetype_seq()[a].entity_ids()[e]].0
                == a && self.index()[self.archetype_seq()[a].entity_ids()[e]].1 == e
    }

    /// Returns an EntityService with no entity.
    pub fn new() -> (res: EntityService)
        ensures
            res.wf(),
            res.next_id() == 0,
            forall|id: EntityId| !res.contains(id),
            res.indexes_every_entity(),
    {
        EntityService { id_incrementer: 0, index_map: HashMap::new(), archetypes: Vec::new() }
    }

    /// Get an entity specific components
    ///
    /// # Arguments
    /// * `entity_id` - The entity id
    ///
    pub fn get_entity(&self, entity_id: EntityId) -> (res: Option<EntityReference<'_>>)
        requires
            self.wf(),
        ensures
            res is Some <==> self.contains(entity_id),
            res matches Some(r) ==> *r.archetype == self.entity_archetype(entity_id)
                && r.entity_id == self.entity_position(entity_id) && r.archetype.wf()
                && r.entity_id < r.archetype.entity_count() && r.archetype.entity_ids()[r.entity_id as int]
                == entity_id,
    {
        match self.index_map.get(&entity_id) {
            Some(p) => {
                let (archetype_index, entity_index) = *p;
                Some(self.archetypes[archetype_index].get(entity_index))
            },
            None => None,
        }
    }

    /// Iterate over all entities
    pub fn iter_all_entities(&self) -> (res: Vec<EntityReference<'_>>)
        requires
            self.wf(),
        ensures
            res@.len() == enabled_positions(self.archetype_seq()).len(),
            forall|i: int|
                0 <= i < res@.len() ==> *(#[trigger] res@[i]).archetype == self.archetype_seq()[enabled_positions(
                    self.archetype_seq(),
                )[i].0] && res@[i].entity_id == enabled_positions(self.archetype_seq())[i].1,
    {
        let ghost all = self.archetypes@;
        let mut res: Vec<EntityReference<'_>> = Vec::new();
        let n = self.archetypes.len();
        let mut a: usize = 0;
        assert(all.take(0) =~= Seq::<Archetype>::empty());
        while a < n
            invariant
                self.wf(),
                all == self.archetypes@,
                n == all.len(),
                a <= n,
                res@.len() == enabled_positions(all.take(a as int)).len(),
                forall|i: int|
                    0 <= i < res@.len() ==> *(#[trigger] res@[i]).archetype
                        == all[enabled_positions(all.take(a as int))[i].0] && res@[i].entity_id
                        == enabled_positions(all.take(a as int))[i].1,
            decreases n - a,
        {
            proof {
                assert(self.archetypes@[a as int].wf());
            }
            let mut entities = self.archetypes[a].iter();
            let ghost before = res@;
            let ghost flags = all[a as int].enabled_flags();
            let ghost prev = enabled_positions(all.take(a as int));
            res.append(&mut entities);
            proof {
                let t = all.take(a + 1);
                assert(t.drop_last() =~= all.take(a as int));
                assert(t.last() == all[a as int]);
                let added = enabled_indices(flags).map_values(|e: int| (a as int, e));
                assert(enabled_positions(t) == prev + added);
                assert forall|i: int| 0 <= i < res@.len() implies *(#[trigger] res@[i]).archetype
                    == all[enabled_positions(t)[i].0] && res@[i].entity_id == enabled_positions(
                    t,
                )[i].1 by {
                    if i < before.len() {
                        assert(res@[i] == before[i]);
                        assert(enabled_positions(t)[i] == prev[i]);
                    } else {
                        assert(enabled_positions(t)[i] == added[i - before.len()]);
                    }
                }
            }
            a = a + 1;
        }
        assert(all.take(n as int) =~= all);
        res
    }

    /// Add a new entity in the storage
    /// Create the archetype if it don't exists
    /// Returns the newly created entity id
    ///
    /// # Arguments
    /// * `entity_id` - The entity id
    /// * `name` - The name of the entity
    /// * `enabled` - Is the entity active
    /// * `components` - The components that will be added
    ///
    pub fn create_with_id(
        &mut self,
        entity_id: EntityId,
        name: &str,
        enabled: bool,
        components: Vec<AnyComponent>,
    ) -> (res: EntityId)
        requires
            old(self).wf(),
            entity_id < u64::MAX,
        ensures
            res == entity_id,
            final(self).wf(),
            counter_step(old(self).next_id(), Some(entity_id), final(self).next_id()),
            final(self).next_id() == if old(self).next_id() < entity_id + 1 {
                (entity_id + 1) as nat
            } else {
                old(self).next_id()
            },
            final(self).contains(entity_id),
            final(self).entity_view(entity_id) == (name@, enabled, sorted_by_name(components@)),
            forall|other: EntityId|
                other != entity_id ==> (#[trigger] final(self).contains(other) <==> old(self).contains(other)),
            forall|other: EntityId|
                other != entity_id && old(self).contains(other) ==> #[trigger] final(self).entity_view(other) == old(self).entity_view(other),
            old(self).indexes_every_entity() && !old(self).contains(entity_id)
                ==> final(self).indexes_every_entity(),
    {
        if self.id_incrementer < entity_id + 1 {
            self.id_incrementer = entity_id + 1;
        }
        let components = sort_components_by_name(components);
        let entity_identifier = get_type_identifier_by_any(&components);
        let ghost sorted = components@;
        proof {
            crate::grouping::lemma_sorted_by_name_ordered(sorted);
        }
        let ghost old_archetypes = self.archetypes@;
        let (archetype_index, entity_index) = match self.archetype_by_identifier(&entity_identifier) {
            Some(a) => {
                let e = self.archetypes[a].len();
                proof {
                    let arch = self.archetypes@[a as int];
                    assert(arch.wf());
                    arch.lemma_layout();
                    arch.lemma_sorted_components(sorted);
                }
                self.archetypes[a].add(entity_id, name, enabled, components);
                proof {
                    assert forall|b: int| 0 <= b < self.archetypes@.len() implies (
                    #[trigger] self.archetypes@[b]).wf() by {
                        if b != a {
                            assert(self.archetypes@[b] == old_archetypes[b]);
                        }
                    }
                }
                (a, e)
            },
            None => {
                let a = self.archetypes.len();
                let archetype = Archetype::new(entity_id, name, enabled, components);
                proof {
                    archetype.lemma_layout();
                    archetype.lemma_sorted_components(sorted);
                }
                self.archetypes.push(archetype);
                proof {
                    assert forall|b: int| 0 <= b < self.archetypes@.len() implies (
                    #[trigger] self.archetypes@[b]).wf() by {
                        if b != a {
                            assert(self.archetypes@[b] == old_archetypes[b]);
                        }
                    }
                }
                (a, 0)
            },
        };
        let ghost before = self.index_map@;
        self.index_map.insert(entity_id, (archetype_index, entity_index));
        proof {
            assert forall|id: EntityId| #[trigger] self.index_map@.contains_key(id) implies self.entry_ok(
                id,
            ) by {
                if id != entity_id {
                    let p = before[id];
                    assert(old(self).index_map@.contains_key(id));
                    assert(old(self).entry_ok(id));
                    if p.0 != archetype_index {
                        assert(self.archetypes@[p.0 as int] == old_archetypes[p.0 as int]);
                    }
                }
            }
            assert forall|other: EntityId|
                other != entity_id && old(self).contains(other) implies #[trigger] self.entity_view(
                other,
            ) == old(self).entity_view(other) by {
                assert(old(self).index_map@.contains_key(other));
                assert(old(self).entry_ok(other));
                let p = before[other];
                assert(self.index_map@[other] == p);
                if p.0 != archetype_index {
                    assert(self.archetypes@[p.0 as int] == old_archetypes[p.0 as int]);
                }
            }
            if old(self).indexes_every_entity() && !old(self).contains(entity_id) {
                assert forall|b: int, f: int|
                    #![trigger self.archetypes@[b].entity_ids()[f]]
                    0 <= b < self.archetypes@.len() && 0 <= f < self.archetypes@[b].entity_count()
                        implies self.index_map@.contains_key(self.archetypes@[b].entity_ids()[f])
                        && self.index_map@[self.archetypes@[b].entity_ids()[f]].0 == b
                        && self.index_map@[self.archetypes@[b].entity_ids()[f]].1 == f by {
                    if b == archetype_index && f == entity_index {
                        assert(self.archetypes@[b].entity_ids()[f] == entity_id);
                    } else {
                        assert(b < old_archetypes.len());
                        assert(old_archetypes[b].entity_ids()[f] == self.archetypes@[b].entity_ids()[f]);
                        assert(old(self).archetype_seq()[b].entity_ids()[f] == self.archetypes@[b].entity_ids()[f]);
                    }
                }
            }
        }
        entity_id
    }

    /// Add a new entity in the storage
    /// Create the archetype if it don't exists
    /// Returns the newly created entity id
    ///
    /// # Arguments
    /// * `name` - The name of the entity
    /// * `enabled` - Is the entity active
    /// * `components` - The components that will be added
    ///
    pub fn create(&mut self, name: &str, enabled: bool, components: Vec<AnyComponent>) -> (res:
        EntityId)
        requires
            old(self).wf(),
            old(self).next_id() + 2 <= u64::MAX,
        ensures
            res == old(self).next_id() + 1,
            counter_step(old(self).next_id(), Some(res), final(self).next_id()),
            !old(self).contains(res),
            final(self).wf(),
            final(self).next_id() == res + 1,
            final(self).contains(res),
            final(self).entity_view(res) == (name@, enabled, sorted_by_name(components@)),
            forall|other: EntityId|
                other != res ==> (#[trigger] final(self).contains(other) <==> old(self).contains(
                    other,
                )),
            forall|other: EntityId|
                other != res && old(self).contains(other) ==> #[trigger] final(self).entity_view(
                    other,
                ) == old(self).entity_view(other),
            old(self).indexes_every_entity() ==> final(self).indexes_every_entity(),
    {
        self.id_incrementer = self.id_incrementer + 1;
        let entity_id = self.id_incrementer;
        proof {
            assert forall|id: EntityId| #[trigger] self.index_map@.contains_key(id) implies id
                < self.id_incrementer by {
                assert(old(self).index_map@.contains_key(id));
                assert(old(self).entry_ok(id));
            }
            assert(!old(self).index_map@.contains_key(entity_id)) by {
                if old(self).index_map@.contains_key(entity_id) {
                    assert(old(self).entry_ok(entity_id));
                }
            }
            assert(self.archetype_seq() == old(self).archetype_seq());
            assert(self.index() == old(self).index());
            assert(old(self).indexes_every_entity() ==> self.indexes_every_entity());
        }
        self.create_with_id(entity_id, name, enabled, components)
    }

    /// Takes the entity at `entity_index` of archetype `archetype_index` out
    /// of it; the entities behind it move down by one, and so do their
    /// recorded positions.
    #[verifier::rlimit(40)]
    fn take_entity(&mut self, archetype_index: usize, entity_index: usize) -> (res: (
        EntityProperties,
        Vec<AnyComponent>,
    ))
        requires
            old(self).archetypes_wf(),
            old(self).entries_valid(),
            archetype_index < old(self).archetypes@.len(),
            entity_index < old(self).archetypes@[archetype_index as int].entity_count(),
            forall|id: EntityId| #[trigger]
                old(self).index_map@.contains_key(id) ==> old(self).index_map@[id] != (
                    archetype_index,
                    entity_index,
                ),
        ensures
            final(self).wf(),
            final(self).next_id() == old(self).next_id(),
            forall|id: EntityId| #[trigger] final(self).contains(id) <==> old(self).contains(id),
            forall|id: EntityId|
                old(self).contains(id) ==> #[trigger] final(self).entity_view(id) == old(
                    self,
                ).entity_view(id),
            res.0.name@ == old(self).archetypes@[archetype_index as int].names()[entity_index as int],
            res.0.enabled == old(self).archetypes@[archetype_index as int].enabled_flags()[entity_index as int],
            res.1@ == old(self).archetypes@[archetype_index as int].entity_components(
                entity_index as int,
            ),
            old(self).indexes_all_but(archetype_index as int, entity_index as int)
                ==> final(self).indexes_every_entity(),
    {
        let ghost a = archetype_index;
        let ghost e = entity_index;
        let ghost old_index = self.index_map@;
        let ghost old_arch = self.archetypes@[a as int];
        let ghost old_archetypes = self.archetypes@;
        proof {
            assert(old_arch.wf());
            old_arch.lemma_layout();
        }
        let res = self.archetypes[archetype_index].remove(entity_index);
        let ghost new_arch = self.archetypes@[a as int];
        proof {
            assert forall|b: int| 0 <= b < self.archetypes@.len() implies (
            #[trigger] self.archetypes@[b]).wf() by {
                if b != a {
                    assert(self.archetypes@[b] == old_archetypes[b]);
                }
            }
        }
        let count = self.archetypes[archetype_index].len();
        let mut k: usize = entity_index;
        while k < count
            invariant
                e <= k <= count,
                count == new_arch.entity_count(),
                count + 1 == old_arch.entity_count(),
                new_arch.entity_ids() == old_arch.entity_ids().remove(e as int),
                a == archetype_index,
                e == entity_index,
                self.archetypes@ == old_archetypes.update(a as int, new_arch),
                old_arch == old_archetypes[a as int],
                (a as int) < old_archetypes.len(),
                self.id_incrementer == old(self).id_incrementer,
                old_index == old(self).index_map@,
                forall|id: EntityId| #[trigger]
                    self.index_map@.contains_key(id) <==> old_index.contains_key(id),
                forall|id: EntityId| #[trigger]
                    old_index.contains_key(id) ==> self.index_map@[id] == shifted(
                        old_index[id],
                        a,
                        e,
                        k as int,
                    ),
                forall|id: EntityId| #[trigger]
                    old_index.contains_key(id) ==> {
                        let p = old_index[id];
                        &&& (p.0 as int) < old_archetypes.len()
                        &&& (p.1 as int) < old_archetypes[p.0 as int].entity_count()
                        &&& old_archetypes[p.0 as int].entity_ids()[p.1 as int] == id
                        &&& id < self.id_incrementer
                        &&& p != (a, e)
                    },
            decreases count - k,
        {
            let y = self.archetypes[archetype_index].get_entity_id(k);
            let next = k + 1;
            let moved = match self.index_map.get(&y) {
                Some(p) => p.0 == archetype_index && p.1 == next,
                None => false,
            };
            let ghost cur = self.index_map@;
            if moved {
                self.index_map.insert(y, (archetype_index, k));
            }
            proof {
                assert(y == old_arch.entity_ids()[k + 1]);
                assert forall|id: EntityId| #[trigger]
                    old_index.contains_key(id) implies self.index_map@[id] == shifted(
                    old_index[id],
                    a,
                    e,
                    k + 1,
                ) by {
                    let p = old_index[id];
                    if p == (a, next) {
                        assert(old_arch.entity_ids()[next as int] == id);
                        assert(id == y);
                    }
                    if id == y && moved {
                        assert(cur[y] == shifted(p, a, e, k as int));
                    }
                }
            }
            k = k + 1;
        }
        proof {
            assert forall|id: EntityId| #[trigger] self.index_map@.contains_key(id) implies self.entry_ok(
                id,
            ) by {
                let p = old_index[id];
                assert(old_index.contains_key(id));
                if p.0 == a {
                    if p.1 > e {
                        assert(new_arch.entity_ids()[p.1 - 1] == old_arch.entity_ids()[p.1 as int]);
                    } else {
                        assert(new_arch.entity_ids()[p.1 as int] == old_arch.entity_ids()[p.1 as int]);
                    }
                }
            }
            assert forall|id: EntityId| old(self).contains(id) implies #[trigger] self.entity_view(id)
                == old(self).entity_view(id) by {
                assert(old_index.contains_key(id));
                let p = old_index[id];
                if p.0 == a {
                    if p.1 > e {
                        assert(new_arch.names()[p.1 - 1] == old_arch.names()[p.1 as int]);
                        assert(new_arch.enabled_flags()[p.1 - 1] == old_arch.enabled_flags()[p.1 as int]);
                        assert(new_arch.entity_components(p.1 - 1) == old_arch.entity_components(
                            p.1 as int,
                        ));
                    } else {
                        assert(new_arch.names()[p.1 as int] == old_arch.names()[p.1 as int]);
                        assert(new_arch.enabled_flags()[p.1 as int] == old_arch.enabled_flags()[p.1 as int]);
                        assert(new_arch.entity_components(p.1 as int) == old_arch.entity_components(
                            p.1 as int,
                        ));
                    }
                } else {
                    assert(self.archetypes@[p.0 as int] == old_archetypes[p.0 as int]);
                }
            }
            if old(self).indexes_all_but(a as int, e as int) {
                assert forall|b: int, f: int|
                    #![trigger self.archetypes@[b].entity_ids()[f]]
                    0 <= b < self.archetypes@.len() && 0 <= f < self.archetypes@[b].entity_count()
                        implies self.index_map@.contains_key(self.archetypes@[b].entity_ids()[f])
                        && self.index_map@[self.archetypes@[b].entity_ids()[f]].0 == b
                        && self.index_map@[self.archetypes@[b].entity_ids()[f]].1 == f by {
                    if b == a {
                        if f < e {
                            assert(new_arch.entity_ids()[f] == old_arch.entity_ids()[f]);
                            assert(old(self).archetypes@[b].entity_ids()[f] == old_arch.entity_ids()[f]);
                        } else {
                            assert(new_arch.entity_ids()[f] == old_arch.entity_ids()[f + 1]);
                            assert(old(self).archetypes@[b].entity_ids()[f + 1] == old_arch.entity_ids()[f + 1]);
                        }
                    } else {
                        assert(self.archetypes@[b] == old_archetypes[b]);
                        assert(old(self).archetypes@[b].entity_ids()[f] == self.archetypes@[b].entity_ids()[f]);
                    }
                }
            }
        }
        res
    }

    /// Remove an entity based on its id; on success, returns the id of the
    /// deleted entity, the one to announce to those who follow deletions
    ///
    /// # Arguments
    /// * `entity_id` - The entity id
    ///
    pub fn remove(&mut self, entity_id: EntityId) -> (res: Result<EntityId, RemoveEntityError>)
        requires
            old(self).wf(),
        ensures
            final(self).wf(),
            res is Ok <==> old(self).contains(entity_id),
            res matches Ok(deleted) ==> deleted == entity_id,
            res is Err ==> final(self).index() == old(self).index() && final(self).archetype_seq()
                == old(self).archetype_seq(),
            !final(self).contains(entity_id),
            final(self).next_id() == old(self).next_id(),
            counter_step(old(self).next_id(), None, final(self).next_id()),
            forall|other: EntityId|
                other != entity_id ==> (#[trigger] final(self).contains(other) <==> old(self).contains(other)),
            forall|other: EntityId|
                other != entity_id && old(self).contains(other) ==> #[trigger] final(self).entity_view(other)
                    == old(self).entity_view(other),
            old(self).indexes_every_entity() ==> final(self).indexes_every_entity(),
    {
        match self.index_map.remove(&entity_id) {
            Some(indexes) => {
                proof {
                    assert(old(self).entry_ok(entity_id));
                    assert forall|id: EntityId| #[trigger]
                        self.index_map@.contains_key(id) implies self.entry_ok(id)
                        && self.index_map@[id] != indexes by {
                        assert(old(self).index_map@.contains_key(id));
                        assert(old(self).entry_ok(id));
                    }
                    if old(self).indexes_every_entity() {
                        assert forall|b: int, f: int|
                            #![trigger self.archetypes@[b].entity_ids()[f]]
                            0 <= b < self.archetypes@.len() && 0 <= f
                                < self.archetypes@[b].entity_count() && (b != indexes.0 || f
                                != indexes.1) implies self.index_map@.contains_key(
                            self.archetypes@[b].entity_ids()[f],
                        ) && self.index_map@[self.archetypes@[b].entity_ids()[f]].0 == b
                            && self.index_map@[self.archetypes@[b].entity_ids()[f]].1 == f by {
                            assert(old(self).archetype_seq()[b].entity_ids()[f]
                                == self.archetypes@[b].entity_ids()[f]);
                        }
                        assert(self.indexes_all_but(indexes.0 as int, indexes.1 as int));
                    }
                }
                self.take_entity(indexes.0, indexes.1);
                Ok(entity_id)
            },
            None => {
                proof {
                    assert(self.index_map@ =~= old(self).index_map@);
                    assert(self.archetype_seq() == old(self).archetype_seq());
                    assert(self.index() == old(self).index());
                }
                Err(RemoveEntityError::NotFound)
            },
        }
    }

    /// Add components to an entity
    ///
    /// # Arguments
    /// * `entity_id` - The entity id
    /// * `components` - The components that will be added
    ///
    pub fn add_component(&mut self, entity_id: EntityId, components: Vec<AnyComponent>) -> (res:
        Result<(), RemoveEntityError>)
        requires
            old(self).wf(),
        ensures
            final(self).wf(),
            res is Ok <==> old(self).contains(entity_id),
            res is Err ==> final(self).index() == old(self).index() && final(self).archetype_seq()
                == old(self).archetype_seq(),
            res is Ok ==> final(self).contains(entity_id) && final(self).entity_view(entity_id) == (
                old(self).entity_view(entity_id).0,
                old(self).entity_view(entity_id).1,
                sorted_by_name(old(self).entity_view(entity_id).2 + components@),
            ),
            final(self).next_id() == old(self).next_id(),
            counter_step(old(self).next_id(), None, final(self).next_id()),
            forall|other: EntityId|
                other != entity_id ==> (#[trigger] final(self).contains(other) <==> old(self).contains(other)),
            forall|other: EntityId|
                other != entity_id && old(self).contains(other) ==> #[trigger] final(self).entity_view(other)
                    == old(self).entity_view(other),
            old(self).indexes_every_entity() ==> final(self).indexes_every_entity(),
    {
        match self.index_map.remove(&entity_id) {
            Some(indexes) => {
                proof {
                    assert(old(self).entry_ok(entity_id));
                    assert forall|id: EntityId| #[trigger]
                        self.index_map@.contains_key(id) implies self.entry_ok(id)
                        && self.index_map@[id] != indexes by {
                        assert(old(self).index_map@.contains_key(id));
                        assert(old(self).entry_ok(id));
                    }
                    if old(self).indexes_every_entity() {
                        assert forall|b: int, f: int|
                            #![trigger self.archetypes@[b].entity_ids()[f]]
                            0 <= b < self.archetypes@.len() && 0 <= f
                                < self.archetypes@[b].entity_count() && (b != indexes.0 || f
                                != indexes.1) implies self.index_map@.contains_key(
                            self.archetypes@[b].entity_ids()[f],
                        ) && self.index_map@[self.archetypes@[b].entity_ids()[f]].0 == b
                            && self.index_map@[self.archetypes@[b].entity_ids()[f]].1 == f by {
                            assert(old(self).archetype_seq()[b].entity_ids()[f]
                                == self.archetypes@[b].entity_ids()[f]);
                        }
                        assert(self.indexes_all_but(indexes.0 as int, indexes.1 as int));
                    }
                }
                let (old_entity, old_components) = self.take_entity(indexes.0, indexes.1);
                let mut all = old_components;
                let mut added = components;
                all.append(&mut added);
                self.create_with_id(entity_id, old_entity.name.as_str(), old_entity.enabled, all);
                Ok(())
            },
            None => {
                proof {
                    assert(self.index_map@ =~= old(self).index_map@);
                    assert(self.archetype_seq() == old(self).archetype_seq());
                    assert(self.index() == old(self).index());
                }
                Err(RemoveEntityError::NotFound)
            },
        }
    }

    /// Remove a component from an entity
    ///
    /// # Arguments
    /// * `entity_id` - The entity id
    /// * `component_index` - The component index, is based on alphabetical
    ///   number of the component type name
    ///
    pub fn remove_component(&mut self, entity_id: EntityId, component_index: usize) -> (res: Result<
        (),
        RemoveEntityError,
    >)
        requires
            old(self).wf(),
            old(self).contains(entity_id) ==> component_index < old(self).entity_view(
                entity_id,
            ).2.len(),
        ensures
            final(self).wf(),
            res is Ok <==> old(self).contains(entity_id),
            res is Err ==> final(self).index() == old(self).index() && final(self).archetype_seq()
                == old(self).archetype_seq(),
            res is Ok ==> final(self).contains(entity_id) && final(self).entity_view(entity_id) == (
                old(self).entity_view(entity_id).0,
                old(self).entity_view(entity_id).1,
                sorted_by_name(old(self).entity_view(entity_id).2.remove(component_index as int)),
            ),
            final(self).next_id() == old(self).next_id(),
            counter_step(old(self).next_id(), None, final(self).next_id()),
            forall|other: EntityId|
                other != entity_id ==> (#[trigger] final(self).contains(other) <==> old(self).contains(other)),
            forall|other: EntityId|
                other != entity_id && old(self).contains(other) ==> #[trigger] final(self).entity_view(other)
                    == old(self).entity_view(other),
            old(self).indexes_every_entity() ==> final(self).indexes_every_entity(),
    {
        match self.index_map.remove(&entity_id) {
            Some(indexes) => {
                proof {
                    assert(old(self).entry_ok(entity_id));
                    assert forall|id: EntityId| #[trigger]
                        self.index_map@.contains_key(id) implies self.entry_ok(id)
                        && self.index_map@[id] != indexes by {
                        assert(old(self).index_map@.contains_key(id));
                        assert(old(self).entry_ok(id));
                    }
                    if old(self).indexes_every_entity() {
                        assert forall|b: int, f: int|
                            #![trigger self.archetypes@[b].entity_ids()[f]]
                            0 <= b < self.archetypes@.len() && 0 <= f
                                < self.archetypes@[b].entity_count() && (b != indexes.0 || f
                                != indexes.1) implies self.index_map@.contains_key(
                            self.archetypes@[b].entity_ids()[f],
                        ) && self.index_map@[self.archetypes@[b].entity_ids()[f]].0 == b
                            && self.index_map@[self.archetypes@[b].entity_ids()[f]].1 == f by {
                            assert(old(self).archetype_seq()[b].entity_ids()[f]
                                == self.archetypes@[b].entity_ids()[f]);
                        }
                        assert(self.indexes_all_but(indexes.0 as int, indexes.1 as int));
                    }
                }
                let (old_entity, old_components) = self.take_entity(indexes.0, indexes.1);
                let mut rest = old_components;
                rest.remove(component_index);
                self.create_with_id(entity_id, old_entity.name.as_str(), old_entity.enabled, rest);
                Ok(())
            },
            None => {
                proof {
                    assert(self.index_map@ =~= old(self).index_map@);
                    assert(self.archetype_seq() == old(self).archetype_seq());
                    assert(self.index() == old(self).index());
                }
                Err(RemoveEntityError::NotFound)
            },
        }
    }

    /// Clear all the entities
    pub fn clear(&mut self)
        ensures
            final(self).wf(),
            final(self).next_id() == 0,
            forall|id: EntityId| !final(self).contains(id),
            final(self).indexes_every_entity(),
    {
        self.index_map.clear();
        self.id_incrementer = 0;
        self.archetypes.clear();
    }

    /// The saved entity at position (`a`, `e`) of the archetypes.
    pub open spec fn saved_at(&self, a: int, e: int) -> (EntityId, Seq<char>, bool, Seq<(Seq<char>, Seq<u8>)>) {
        let arch = self.archetype_seq()[a];
        (arch.entity_ids()[e], arch.names()[e], arch.enabled_flags()[e], component_views(
            arch.entity_components(e),
        ))
    }

    /// Create a snapshot over all the entities, archetype after archetype
    pub fn snapshot(&self) -> (res: EntityServiceSnapshot)
        requires
            self.wf(),
        ensures
            snapshot_of(*self, res.0@),
    {
        let ghost all = self.archetypes@;
        let mut saved: Vec<EntitySnapshot> = Vec::new();
        let n = self.archetypes.len();
        let mut a: usize = 0;
        assert(all.take(0) =~= Seq::<Archetype>::empty());
        while a < n
            invariant
                self.wf(),
                all == self.archetypes@,
                n == all.len(),
                a <= n,
                saved@.len() == entity_positions(all.take(a as int)).len(),
                forall|k: int|
                    0 <= k < saved@.len() ==> snapshot_view(#[trigger] saved@[k]) == self.saved_at(
                        entity_positions(all.take(a as int))[k].0,
                        entity_positions(all.take(a as int))[k].1,
                    ),
            decreases n - a,
        {
            let archetype = &self.archetypes[a];
            proof {
                assert(all[a as int].wf());
                archetype.lemma_layout();
            }
            let ghost prev = entity_positions(all.take(a as int));
            let ghost before = saved@;
            let count = archetype.len();
            let mut e: usize = 0;
            while e < count
                invariant
                    self.wf(),
                    all == self.archetypes@,
                    (a as int) < all.len(),
                    *archetype == all[a as int],
                    archetype.wf(),
                    count == archetype.entity_count(),
                    e <= count,
                    saved@.len() == prev.len() + e,
                    forall|k: int| 0 <= k < prev.len() ==> #[trigger] saved@[k] == before[k],
                    forall|k: int|
                        0 <= k < e ==> snapshot_view(#[trigger] saved@[prev.len() + k])
                            == self.saved_at(a as int, k),
                decreases count - e,
            {
                let guard = EntityReadGuard { entity_id: e, archetype };
                let entity_id = guard.get_entity_id();
                let name = guard.get_name();
                let enabled = guard.is_enabled();
                let components = clone_entity_components(&guard);
                let ghost inner = saved@;
                saved.push(EntitySnapshot { entity_id, name, enabled, components });
                proof {
                    assert forall|k: int| 0 <= k < prev.len() implies #[trigger] saved@[k]
                        == before[k] by {
                        assert(saved@[k] == inner[k]);
                    }
                    assert forall|k: int| 0 <= k < e + 1 implies snapshot_view(
                        #[trigger] saved@[prev.len() + k],
                    ) == self.saved_at(a as int, k) by {
                        if k < e {
                            assert(saved@[prev.len() + k] == inner[prev.len() + k]);
                        }
                    }
                }
                e = e + 1;
            }
            proof {
                let t = all.take(a + 1);
                assert(t.drop_last() =~= all.take(a as int));
                assert(t.last() == all[a as int]);
                let added = Seq::new(all[a as int].entity_count(), |x: int| (a as int, x));
                assert(entity_positions(t) == prev + added);
                assert forall|k: int| 0 <= k < saved@.len() implies snapshot_view(
                    #[trigger] saved@[k],
                ) == self.saved_at(entity_positions(t)[k].0, entity_positions(t)[k].1) by {
                    if k < prev.len() {
                        assert(saved@[k] == before[k]);
                        assert(entity_positions(t)[k] == prev[k]);
                    } else {
                        assert(entity_positions(t)[k] == added[k - prev.len()]);
                        assert(saved@[prev.len() + (k - prev.len())] == saved@[k]);
                    }
                }
            }
            a = a + 1;
        }
        assert(all.take(n as int) =~= all);
        EntityServiceSnapshot(saved)
    }

    /// Restore an entity snapshot: the entities are all removed, then each
    /// saved entity is created again with its id, a later one replacing an
    /// earlier one of the same id
    ///
    /// # Arguments
    /// * `snapshot` - The snapshot
    ///
    pub fn restore(&mut self, snapshot: EntityServiceSnapshot)
        requires
            forall|i: int|
                0 <= i < snapshot.0@.len() ==> (#[trigger] snapshot.0@[i]).entity_id < u64::MAX,
        ensures
            final(self).wf(),
            restored_from(snapshot.0@, *final(self)),
            (forall|i: int, j: int|
                0 <= i < j < snapshot.0@.len() ==> snapshot.0@[i].entity_id
                    != snapshot.0@[j].entity_id) ==> final(self).indexes_every_entity(),
    {
        self.clear();
        let ghost all = snapshot.0@;
        let mut rest = snapshot.0;
        let ghost mut done: int = 0;
        while rest.len() > 0
            invariant
                0 <= done <= all.len(),
                rest@ == all.skip(done),
                self.wf(),
                (forall|i: int, j: int|
                    0 <= i < j < all.len() ==> all[i].entity_id != all[j].entity_id)
                    ==> self.indexes_every_entity(),
                forall|i: int| 0 <= i < all.len() ==> (#[trigger] all[i]).entity_id < u64::MAX,
                forall|id: EntityId|
                    #[trigger] self.contains(id) <==> exists|i: int|
                        0 <= i < done && all[i].entity_id == id,
                forall|i: int|
                    0 <= i < done && (forall|j: int| i < j < done ==> all[j].entity_id != all[i].entity_id)
                        ==> #[trigger] self.entity_view(all[i].entity_id) == (
                        all[i].name@,
                        all[i].enabled,
                        sorted_by_name(all[i].components@),
                    ),
            decreases rest@.len(),
        {
            let saved = rest.remove(0);
            proof {
                assert(saved == all[done]);
                assert(rest@ =~= all.skip(done + 1));
            }
            let ghost before = *self;
            proof {
                if forall|i: int, j: int|
                    0 <= i < j < all.len() ==> all[i].entity_id != all[j].entity_id {
                    if self.contains(saved.entity_id) {
                        let i = choose|i: int| 0 <= i < done && all[i].entity_id == saved.entity_id;
                        assert(all[i].entity_id != all[done].entity_id);
                    }
                }
            }
            self.create_with_id(saved.entity_id, saved.name.as_str(), saved.enabled, saved.components);
            proof {
                let d = done;
                assert forall|id: EntityId| #[trigger] self.contains(id) <==> exists|i: int|
                    0 <= i < d + 1 && all[i].entity_id == id by {
                    if id == all[d].entity_id {
                        assert(0 <= d < d + 1 && all[d].entity_id == id);
                    } else {
                        if exists|i: int| 0 <= i < d + 1 && all[i].entity_id == id {
                            let i = choose|i: int| 0 <= i < d + 1 && all[i].entity_id == id;
                            assert(i < d);
                        }
                    }
                }
                assert forall|i: int|
                    0 <= i < d + 1 && (forall|j: int| i < j < d + 1 ==> all[j].entity_id != all[i].entity_id)
                        implies #[trigger] self.entity_view(all[i].entity_id) == (
                        all[i].name@,
                        all[i].enabled,
                        sorted_by_name(all[i].components@),
                    ) by {
                    if i < d {
                        assert(all[d].entity_id != all[i].entity_id);
                        assert(before.contains(all[i].entity_id));
                    }
                }
                done = done + 1;
            }
        }
        assert(all.skip(done) =~= Seq::<EntitySnapshot>::empty());
        assert(done == all.len());
    }

    /// The index of the first archetype whose components have exactly these
    /// class names, in this order.
    fn archetype_by_identifier(&self, entity_identifier: &EntityTypeIdentifier) -> (res: Option<
        usize,
    >)
        ensures
            res matches Some(a) ==> a < self.archetypes@.len()
                && self.archetypes@[a as int].type_names() == entity_identifier@,
            res is None ==> forall|a: int|
                0 <= a < self.archetypes@.len() ==> (#[trigger] self.archetypes@[a]).type_names()
                    != entity_identifier@,
    {
        let n = self.archetypes.len();
        let mut a: usize = 0;
        while a < n
            invariant
                n == self.archetypes@.len(),
                a <= n,
                forall|b: int|
                    0 <= b < a ==> (#[trigger] self.archetypes@[b]).type_names() != entity_identifier@,
            decreases n - a,
        {
            if self.archetypes[a].get_type_identifier().equals(entity_identifier) {
                return Some(a);
            }
            a = a + 1;
        }
        None
    }
}

/// Copies of the components of the entity a guard reads.
fn clone_entity_components(guard: &EntityReadGuard<'_>) -> (res: Vec<AnyComponent>)
    requires
        guard.valid(),
    ensures
        component_views(res@) == component_views(
            guard.archetype.entity_components(guard.entity_id as int),
        ),
{
    let readers = guard.read_all_components();
    let ghost expected = guard.archetype.entity_components(guard.entity_id as int);
    let mut res: Vec<AnyComponent> = Vec::new();
    let n = readers.len();
    let mut i: usize = 0;
    while i < n
        invariant
            n == readers@.len(),
            n == expected.len(),
            i <= n,
            res@.len() == i,
            forall|k: int|
                0 <= k < n ==> (#[trigger] readers@[k]).valid() && readers@[k].component()
                    == expected[k],
            forall|k: int| 0 <= k < i ==> (#[trigger] res@[k])@ == expected[k]@,
        decreases n - i,
    {
        let component = readers[i].get().clone();
        res.push(component);
        i = i + 1;
    }
    assert(component_views(res@) =~= component_views(expected));
    res
}


/// The positions of the entities are positions of entities of the
/// archetypes, and are distinct.
proof fn lemma_entity_positions(archetypes: Seq<Archetype>)
    ensures
        forall|k: int|
            0 <= k < entity_positions(archetypes).len() ==> 0 <= (
            #[trigger] entity_positions(archetypes)[k]).0 < archetypes.len() && 0
                <= entity_positions(archetypes)[k].1 < archetypes[entity_positions(
                archetypes,
            )[k].0].entity_count(),
        forall|i: int, j: int|
            0 <= i < j < entity_positions(archetypes).len() ==> #[trigger] entity_positions(
                archetypes,
            )[i] != #[trigger] entity_positions(archetypes)[j],
    decreases archetypes.len(),
{
    if archetypes.len() > 0 {
        let rest = archetypes.drop_last();
        let n = archetypes.len() - 1;
        lemma_entity_positions(rest);
        let last = archetypes.last();
        assert(last == archetypes[n]);
        let prev = entity_positions(rest);
        let added = Seq::new(last.entity_count(), |e: int| (n, e));
        let all = entity_positions(archetypes);
        assert(all == prev + added);
        assert forall|k: int| 0 <= k < all.len() implies 0 <= (#[trigger] all[k]).0
            < archetypes.len() && 0 <= all[k].1 < archetypes[all[k].0].entity_count() by {
            if k < prev.len() {
                assert(all[k] == prev[k]);
                assert(rest[prev[k].0] == archetypes[prev[k].0]);
            } else {
                assert(all[k] == added[k - prev.len()]);
            }
        }
        assert forall|i: int, j: int| 0 <= i < j < all.len() implies #[trigger] all[i]
            != #[trigger] all[j] by {
            if j < prev.len() {
                assert(all[i] == prev[i]);
                assert(all[j] == prev[j]);
            } else if i < prev.len() {
                assert(all[i] == prev[i]);
                assert(all[j] == added[j - prev.len()]);
            } else {
                assert(all[i] == added[i - prev.len()]);
                assert(all[j] == added[j - prev.len()]);
            }
        }
    }
}

/// Every entity of the archetypes has its position among the positions of
/// the entities.
proof fn lemma_entity_position_listed(archetypes: Seq<Archetype>, a: int, e: int)
    requires
        0 <= a < archetypes.len(),
        0 <= e < archetypes[a].entity_count(),
    ensures
        exists|k: int|
            0 <= k < entity_positions(archetypes).len() && entity_positions(archetypes)[k].0 == a
                && entity_positions(archetypes)[k].1 == e,
    decreases archetypes.len(),
{
    let rest = archetypes.drop_last();
    let n = archetypes.len() - 1;
    let prev = entity_positions(rest);
    let added = Seq::new(archetypes.last().entity_count(), |x: int| (n, x));
    let all = entity_positions(archetypes);
    assert(all == prev + added);
    if a < n {
        assert(rest[a] == archetypes[a]);
        lemma_entity_position_listed(rest, a, e);
        let k = choose|k: int| 0 <= k < prev.len() && prev[k].0 == a && prev[k].1 == e;
        assert(all[k] == prev[k]);
    } else {
        assert(all[prev.len() + e] == added[e]);
    }
}

/// Restoring a snapshot of the entities gives back every entity under its
/// id, with its name, enabled flag and components, and no other entity.
pub proof fn lemma_restore_of_snapshot(
    s: EntityService,
    snap: Seq<EntitySnapshot>,
    t: EntityService,
)
    requires
        s.wf(),
        s.indexes_every_entity(),
        snapshot_of(s, snap),
        restored_from(snap, t),
    ensures
        forall|id: EntityId| #[trigger] t.contains(id) <==> s.contains(id),
        forall|id: EntityId|
            s.contains(id) ==> (#[trigger] t.entity_view(id)).0 == s.entity_view(id).0
                && t.entity_view(id).1 == s.entity_view(id).1 && component_views(
                t.entity_view(id).2,
            ) == component_views(s.entity_view(id).2),
        forall|i: int, j: int|
            0 <= i < j < snap.len() ==> #[trigger] snap[i].entity_id != #[trigger] snap[j].entity_id,
{
    let arch = s.archetype_seq();
    let ep = entity_positions(arch);
    assert(s.archetypes_wf());
    assert(s.entries_valid());
    lemma_entity_positions(arch);
    // A saved entity is the entity stored at its position.
    assert forall|i: int| 0 <= i < snap.len() implies s.contains(#[trigger] snap[i].entity_id)
        && s.index()[snap[i].entity_id].0 == ep[i].0 && s.index()[snap[i].entity_id].1 == ep[i].1 by {
        assert(snapshot_view(snap[i]) == s.saved_at(ep[i].0, ep[i].1));
        let a = ep[i].0;
        let e = ep[i].1;
        assert(arch[a].entity_ids()[e] == snap[i].entity_id);
    }
    assert forall|i: int, j: int| 0 <= i < j < snap.len() implies #[trigger] snap[i].entity_id
        != #[trigger] snap[j].entity_id by {
        if snap[i].entity_id == snap[j].entity_id {
            assert(s.contains(snap[i].entity_id));
            assert(ep[i] != ep[j]);
        }
    }
    assert forall|id: EntityId| #[trigger] t.contains(id) <==> s.contains(id) by {
        if t.contains(id) {
            let i = choose|i: int| 0 <= i < snap.len() && snap[i].entity_id == id;
            assert(s.contains(snap[i].entity_id));
        }
        if s.contains(id) {
            assert(s.entry_ok(id));
            let a = s.index()[id].0 as int;
            let e = s.index()[id].1 as int;
            lemma_entity_position_listed(arch, a, e);
            let k = choose|k: int| 0 <= k < ep.len() && ep[k].0 == a && ep[k].1 == e;
            assert(snapshot_view(snap[k]) == s.saved_at(a, e));
            assert(snap[k].entity_id == id);
        }
    }
    assert forall|id: EntityId| s.contains(id) implies (#[trigger] t.entity_view(id)).0
        == s.entity_view(id).0 && t.entity_view(id).1 == s.entity_view(id).1 && component_views(
        t.entity_view(id).2,
    ) == component_views(s.entity_view(id).2) by {
        assert(s.entry_ok(id));
        let a = s.index()[id].0 as int;
        let e = s.index()[id].1 as int;
        lemma_entity_position_listed(arch, a, e);
        let k = choose|k: int| 0 <= k < ep.len() && ep[k].0 == a && ep[k].1 == e;
        assert(snapshot_view(snap[k]) == s.saved_at(a, e));
        assert(snap[k].entity_id == id);
        assert forall|j: int| k < j < snap.len() implies snap[j].entity_id != snap[k].entity_id by {
            if snap[j].entity_id == snap[k].entity_id {
                assert(s.contains(snap[j].entity_id));
                assert(ep[k] != ep[j]);
            }
        }
        assert(t.entity_view(id) == (snap[k].name@, snap[k].enabled, sorted_by_name(
            snap[k].components@,
        )));
        let comps = snap[k].components@;
        let stored = arch[a].entity_components(e);
        assert(arch[a].wf());
        arch[a].lemma_entity_components_ordered(e);
        assert(component_views(comps) == component_views(stored));
        assert forall|x: int, y: int| 0 <= x < y < comps.len() implies crate::names::name_le(
            #[trigger] comps[x].class_name@,
            #[trigger] comps[y].class_name@,
        ) by {
            assert(comps.len() == component_views(comps).len());
            assert(stored.len() == component_views(stored).len());
            assert(component_views(comps)[x] == comps[x]@);
            assert(component_views(stored)[x] == stored[x]@);
            assert(component_views(comps)[y] == comps[y]@);
            assert(component_views(stored)[y] == stored[y]@);
            assert(stored[x].class_name@ == comps[x].class_name@);
            assert(stored[y].class_name@ == comps[y].class_name@);
        }
        crate::grouping::lemma_sorted_by_name_ordered(comps);
    }
}


/// Removing an entity just created gives back the entities there were
/// before the creation, each with the same name, flag and components.
pub proof fn lemma_remove_after_create(
    before: EntityService,
    created: EntityService,
    removed: EntityService,
    id: EntityId,
)
    requires
        !before.contains(id),
        created.contains(id),
        forall|other: EntityId|
            other != id ==> (#[trigger] created.contains(other) <==> before.contains(other)),
        forall|other: EntityId|
            other != id && before.contains(other) ==> #[trigger] created.entity_view(other)
                == before.entity_view(other),
        !removed.contains(id),
        forall|other: EntityId|
            other != id ==> (#[trigger] removed.contains(other) <==> created.contains(other)),
        forall|other: EntityId|
            other != id && created.contains(other) ==> #[trigger] removed.entity_view(other)
                == created.entity_view(other),
    ensures
        forall|other: EntityId| #[trigger] removed.contains(other) <==> before.contains(other),
        forall|other: EntityId|
            before.contains(other) ==> #[trigger] removed.entity_view(other) == before.entity_view(
                other,
            ),
{
    assert forall|other: EntityId| before.contains(other) implies #[trigger] removed.entity_view(
        other,
    ) == before.entity_view(other) by {
        assert(other != id);
        assert(created.contains(other));
    }
}

/// What a call does to the id counter of an entity service: one that
/// hands out or takes an id (`Some`) leaves the counter past it and never
/// lowers it; any other call (`None`) leaves it as it was.
pub open spec fn counter_step(before: nat, issued: Option<EntityId>, after: nat) -> bool {
    match issued {
        Some(id) => before <= after && id < after,
        None => after == before,
    }
}

/// Along calls that each move the counter as `counter_step` says, the
/// counter never goes down.
proof fn lemma_counter_rises(counters: Seq<nat>, issued: Seq<Option<EntityId>>, j: int, k: int)
    requires
        counters.len() == issued.len() + 1,
        forall|i: int|
            0 <= i < issued.len() ==> counter_step(counters[i], #[trigger] issued[i], counters[i + 1]),
        0 <= j <= k < counters.len(),
    ensures
        counters[j] <= counters[k],
    decreases k - j,
{
    if j < k {
        lemma_counter_rises(counters, issued, j + 1, k);
        assert(counter_step(counters[j], issued[j], counters[j + 1]));
    }
}

/// Since the last clear, each id that `create` gives is greater than every
/// id that `create` gave or `create_with_id` was given before it: over a run
/// of calls with counters `counters` (the first that of the service at the
/// start, each next one that after a call), where call `i` handed out or took
/// the id `issued[i]` when it is `Some`, a call `k` of `create` gives a
/// greater id than any earlier call `j`. Each of `create`, `create_with_id`,
/// `remove`, `add_component` and `remove_component` ensures its own
/// `counter_step`.
pub proof fn lemma_created_ids_increase(
    counters: Seq<nat>,
    issued: Seq<Option<EntityId>>,
    j: int,
    k: int,
)
    requires
        counters.len() == issued.len() + 1,
        forall|i: int|
            0 <= i < issued.len() ==> counter_step(counters[i], #[trigger] issued[i], counters[i + 1]),
        0 <= j < k < issued.len(),
        issued[j] is Some,
        issued[k] == Some((counters[k] + 1) as EntityId),
        counters[k] + 1 <= u64::MAX,
    ensures
        issued[j]->0 < issued[k]->0,
{
    assert(counter_step(counters[j], issued[j], counters[j + 1]));
    lemma_counter_rises(counters, issued, j + 1, k);
}

/// The enabled positions lie among the archetypes and come archetype after
/// archetype, and within an archetype by increasing position.
proof fn lemma_enabled_positions_ordered(archetypes: Seq<Archetype>)
    ensures
        forall|i: int|
            0 <= i < enabled_positions(archetypes).len() ==> 0 <= (
            #[trigger] enabled_positions(archetypes)[i]).0 < archetypes.len(),
        forall|i: int, j: int|
            0 <= i < j < enabled_positions(archetypes).len() ==> (#[trigger] enabled_positions(
                archetypes,
            )[i]).0 < (#[trigger] enabled_positions(archetypes)[j]).0 || (enabled_positions(
                archetypes,
            )[i].0 == enabled_positions(archetypes)[j].0 && enabled_positions(archetypes)[i].1
                < enabled_positions(archetypes)[j].1),
    decreases archetypes.len(),
{
    if archetypes.len() > 0 {
        let rest = archetypes.drop_last();
        let n = archetypes.len() - 1;
        lemma_enabled_positions_ordered(rest);
        let prev = enabled_positions(rest);
        let flags = archetypes.last().enabled_flags();
        lemma_enabled_indices(flags);
        let added = enabled_indices(flags).map_values(|x: int| (n, x));
        let all = enabled_positions(archetypes);
        assert(all == prev + added);
        assert forall|i: int| 0 <= i < all.len() implies 0 <= (#[trigger] all[i]).0 < archetypes.len() by {
            if i < prev.len() {
                assert(all[i] == prev[i]);
            } else {
                assert(all[i] == added[i - prev.len()]);
            }
        }
        assert forall|i: int, j: int| 0 <= i < j < all.len() implies (#[trigger] all[i]).0 < (
        #[trigger] all[j]).0 || (all[i].0 == all[j].0 && all[i].1 < all[j].1) by {
            if j < prev.len() {
                assert(all[i] == prev[i]);
                assert(all[j] == prev[j]);
            } else if i < prev.len() {
                assert(all[i] == prev[i]);
                assert(all[j] == added[j - prev.len()]);
            } else {
                assert(all[i] == added[i - prev.len()]);
                assert(all[j] == added[j - prev.len()]);
                assert(enabled_indices(flags)[i - prev.len()] < enabled_indices(flags)[j - prev.len()]);
            }
        }
    }
}

/// Whether `(a, e)` is among the enabled positions.
proof fn lemma_enabled_position_listed(archetypes: Seq<Archetype>, a: int, e: int)
    ensures
        enabled_positions(archetypes).contains((a, e)) <==> (0 <= a < archetypes.len() && 0 <= e
            < archetypes[a].enabled_flags().len() && archetypes[a].enabled_flags()[e]),
    decreases archetypes.len(),
{
    if archetypes.len() > 0 {
        let rest = archetypes.drop_last();
        let n = archetypes.len() - 1;
        lemma_enabled_position_listed(rest, a, e);
        lemma_enabled_positions_ordered(rest);
        let prev = enabled_positions(rest);
        let flags = archetypes.last().enabled_flags();
        lemma_enabled_indices(flags);
        let added = enabled_indices(flags).map_values(|x: int| (n, x));
        let all = enabled_positions(archetypes);
        assert(all == prev + added);
        if a < n && 0 <= a {
            assert(rest[a] == archetypes[a]);
        }
        if all.contains((a, e)) {
            let k = choose|k: int| 0 <= k < all.len() && all[k] == (a, e);
            if k < prev.len() {
                assert(all[k] == prev[k]);
                assert(prev.contains((a, e)));
                assert(rest[a] == archetypes[a]);
            } else {
                assert(all[k] == added[k - prev.len()]);
                assert(archetypes[n] == archetypes.last());
            }
        }
        if 0 <= a < archetypes.len() && 0 <= e < archetypes[a].enabled_flags().len()
            && archetypes[a].enabled_flags()[e] {
            if a < n {
                let k = choose|k: int| 0 <= k < prev.len() && prev[k] == (a, e);
                assert(all[k] == prev[k]);
            } else {
                assert(archetypes[n] == archetypes.last());
                lemma_enabled_indices_exact(flags, e);
                let k = choose|k: int|
                    0 <= k < enabled_indices(flags).len() && enabled_indices(flags)[k] == e;
                assert(all[prev.len() + k] == added[k]);
            }
        }
    }
}

/// The entities that a walk over all entities visits are exactly the
/// enabled ones: position `(a, e)` is visited exactly when entity `e` of
/// archetype `a` is enabled, and the visits go archetype after archetype,
/// by increasing position, so each enabled entity is visited once.
pub proof fn lemma_enabled_positions_exact(archetypes: Seq<Archetype>, a: int, e: int)
    ensures
        enabled_positions(archetypes).contains((a, e)) <==> (0 <= a < archetypes.len() && 0 <= e
            < archetypes[a].enabled_flags().len() && archetypes[a].enabled_flags()[e]),
        forall|i: int, j: int|
            0 <= i < j < enabled_positions(archetypes).len() ==> (#[trigger] enabled_positions(
                archetypes,
            )[i]).0 < (#[trigger] enabled_positions(archetypes)[j]).0 || (enabled_positions(
                archetypes,
            )[i].0 == enabled_positions(archetypes)[j].0 && enabled_positions(archetypes)[i].1
                < enabled_positions(archetypes)[j].1),
{
    lemma_enabled_position_listed(archetypes, a, e);
    lemma_enabled_positions_ordered(archetypes);
}

} // verus!
