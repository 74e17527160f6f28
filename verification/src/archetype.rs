use crate::component::{
    class_names,
    get_type_identifier_by_any,
    AnyComponent,
    EntityId,
    EntityTypeIdentifier,
};
use crate::grouping::{
    assoc_keys,
    assoc_map,
    concat_groups,
    group_components_by_type,
    group_entries,
    grouped_map,
    keys_sorted,
    lemma_assoc_map_sorted,
    lemma_name_count_positive,
    lemma_name_layout_is_counts,
    lemma_sorted_by_name_ordered,
    lemma_sorted_name_counts,
    lemma_grouped_layout,
    lemma_sorted_regroup,
    name_count,
    name_counts,
    name_layout,
    names_ordered,
    sort_components_by_name,
    sorted_by_name,
};
use crate::names::{lemma_name_less_irreflexive, name_le, name_less, str_eq};
use crate::storage::ComponentStorage;
use vstd::prelude::*;

verus! {

/// The properties that every entity has, whatever its components.
pub struct EntityProperties {
    /// The entity id
    pub entity_id: EntityId,
    /// The entity name
    pub name: String,
    /// If false, the entity is ignored by the systems
    pub enabled: bool,
}

/// The entities that share one component structure, stored as a structure of
/// arrays: entity `i` has the `i`-th id, name and enabled flag, and in each
/// storage the `i`-th block of components of the storage's class.
pub struct Archetype {
    identifier: EntityTypeIdentifier,
    entity_id_array: Vec<EntityId>,
    name_array: Vec<String>,
    enabled_array: Vec<bool>,
    component_storages: Vec<(String, ComponentStorage)>,
}

/// The storages of an archetype, with their class names.
pub open spec fn storage_entries(storages: Seq<(String, ComponentStorage)>) -> Seq<
    (Seq<char>, ComponentStorage),
> {
    storages.map_values(|e: (String, ComponentStorage)| (e.0@, e.1))
}

/// How many components of each class an entity has.
pub open spec fn storage_layout(storages: Seq<(Seq<char>, ComponentStorage)>) -> Seq<
    (Seq<char>, nat),
> {
    storages.map_values(|e: (Seq<char>, ComponentStorage)| (e.0, e.1.per_entity()))
}

/// The components kept by each storage.
pub open spec fn storage_contents(storages: Seq<(Seq<char>, ComponentStorage)>) -> Seq<
    (Seq<char>, Seq<AnyComponent>),
> {
    storages.map_values(|e: (Seq<char>, ComponentStorage)| (e.0, e.1.items()))
}

/// The components of entity `e`, storage after storage in name order.
pub open spec fn components_of(storages: Seq<(Seq<char>, ComponentStorage)>, e: int) -> Seq<
    AnyComponent,
>
    decreases storages.len(),
{
    if storages.len() == 0 {
        Seq::empty()
    } else {
        components_of(storages.drop_last(), e) + storages.last().1.entity_items(e)
    }
}

/// Where the components of entity `e` are: (class name, index in the
/// storage), in the order of `components_of`.
pub open spec fn slots_of(storages: Seq<(Seq<char>, ComponentStorage)>, e: int) -> Seq<
    (Seq<char>, int),
>
    decreases storages.len(),
{
    if storages.len() == 0 {
        Seq::empty()
    } else {
        slots_of(storages.drop_last(), e) + storage_slots(
            storages.last().0,
            storages.last().1.per_entity(),
            e,
        )
    }
}

/// The places of the components of entity `e` in one storage.
pub open spec fn storage_slots(key: Seq<char>, per_entity: nat, e: int) -> Seq<(Seq<char>, int)> {
    Seq::new(per_entity, |k: int| (key, e * per_entity + k))
}

/// The positions of the enabled flags, in order.
pub open spec fn enabled_indices(flags: Seq<bool>) -> Seq<int>
    decreases flags.len(),
{
    if flags.len() == 0 {
        Seq::empty()
    } else if flags.last() {
        enabled_indices(flags.drop_last()).push(flags.len() - 1)
    } else {
        enabled_indices(flags.drop_last())
    }
}

/// When each storage keeps, for entity `e`, the group that `m` files under
/// its class, the components of `e` are those groups in storage order.
proof fn lemma_components_of_groups(
    st: Seq<(Seq<char>, ComponentStorage)>,
    e: int,
    m: Map<Seq<char>, Seq<AnyComponent>>,
)
    requires
        forall|i: int| 0 <= i < st.len() ==> (#[trigger] st[i]).1.entity_items(e) == m[st[i].0],
    ensures
        components_of(st, e) == concat_groups(assoc_keys(st), m),
    decreases st.len(),
{
    if st.len() > 0 {
        let rest = st.drop_last();
        assert(assoc_keys(rest) =~= assoc_keys(st).drop_last());
        assert forall|i: int| 0 <= i < rest.len() implies (#[trigger] rest[i]).1.entity_items(e)
            == m[rest[i].0] by {
            assert(rest[i] == st[i]);
        }
        lemma_components_of_groups(rest, e, m);
        assert(st.last() == st[st.len() - 1]);
        assert(assoc_keys(st).last() == st.last().0);
    }
}

/// Two lists of storages that keep the same blocks for entities `e1` and
/// `e2` give them the same components.
proof fn lemma_components_of_same(
    st1: Seq<(Seq<char>, ComponentStorage)>,
    e1: int,
    st2: Seq<(Seq<char>, ComponentStorage)>,
    e2: int,
)
    requires
        st1.len() == st2.len(),
        forall|i: int|
            0 <= i < st1.len() ==> (#[trigger] st1[i]).1.entity_items(e1) == st2[i].1.entity_items(
                e2,
            ),
    ensures
        components_of(st1, e1) == components_of(st2, e2),
    decreases st1.len(),
{
    if st1.len() > 0 {
        let r1 = st1.drop_last();
        let r2 = st2.drop_last();
        assert forall|i: int| 0 <= i < r1.len() implies (#[trigger] r1[i]).1.entity_items(e1)
            == r2[i].1.entity_items(e2) by {
            assert(r1[i] == st1[i]);
            assert(r2[i] == st2[i]);
        }
        lemma_components_of_same(r1, e1, r2, e2);
        assert(st1.last() == st1[st1.len() - 1]);
        assert(st2.last() == st2[st2.len() - 1]);
    }
}

/// The blocks of a storage that received the block `g` of one more entity.
proof fn lemma_block_after_push(old_items: Seq<AnyComponent>, g: Seq<AnyComponent>, n0: int, c: int, e: int)
    requires
        0 <= c,
        0 <= e <= n0,
        old_items.len() == n0 * c,
        g.len() == c,
    ensures
        e < n0 ==> (old_items + g).subrange(e * c, (e + 1) * c) == old_items.subrange(
            e * c,
            (e + 1) * c,
        ),
        e == n0 ==> (old_items + g).subrange(e * c, (e + 1) * c) == g,
{
    assert((e + 1) * c == e * c + c) by (nonlinear_arith);
    assert(0 <= e * c) by (nonlinear_arith)
        requires
            0 <= e,
            0 <= c,
    ;
    if e < n0 {
        assert((e + 1) * c <= n0 * c) by (nonlinear_arith)
            requires
                e + 1 <= n0,
                0 <= c,
        ;
        assert((old_items + g).subrange(e * c, (e + 1) * c) =~= old_items.subrange(
            e * c,
            (e + 1) * c,
        ));
    } else {
        assert((old_items + g).subrange(e * c, (e + 1) * c) =~= g);
    }
}

/// The blocks of a storage from which the block of entity `idx` was taken.
proof fn lemma_block_after_remove(items: Seq<AnyComponent>, n0: int, c: int, idx: int, e: int)
    requires
        0 <= c,
        0 <= idx < n0,
        0 <= e < n0 - 1,
        items.len() == n0 * c,
    ensures
        ({
            let rest = items.subrange(0, idx * c) + items.subrange((idx + 1) * c, items.len() as int);
            &&& e < idx ==> rest.subrange(e * c, (e + 1) * c) == items.subrange(e * c, (e + 1) * c)
            &&& e >= idx ==> rest.subrange(e * c, (e + 1) * c) == items.subrange(
                (e + 1) * c,
                (e + 2) * c,
            )
        }),
{
    let rest = items.subrange(0, idx * c) + items.subrange((idx + 1) * c, items.len() as int);
    assert((e + 1) * c == e * c + c) by (nonlinear_arith);
    assert((e + 2) * c == e * c + 2 * c) by (nonlinear_arith);
    assert((idx + 1) * c == idx * c + c) by (nonlinear_arith);
    assert(0 <= e * c) by (nonlinear_arith)
        requires
            0 <= e,
            0 <= c,
    ;
    assert((e + 2) * c <= n0 * c) by (nonlinear_arith)
        requires
            e + 2 <= n0,
            0 <= c,
    ;
    assert((idx + 1) * c <= n0 * c) by (nonlinear_arith)
        requires
            idx + 1 <= n0,
            0 <= c,
    ;
    if e < idx {
        assert((e + 1) * c <= idx * c) by (nonlinear_arith)
            requires
                e + 1 <= idx,
                0 <= c,
        ;
        assert(rest.subrange(e * c, (e + 1) * c) =~= items.subrange(e * c, (e + 1) * c));
    } else {
        assert(idx * c <= e * c) by (nonlinear_arith)
            requires
                idx <= e,
                0 <= c,
        ;
        assert(rest.subrange(e * c, (e + 1) * c) =~= items.subrange((e + 1) * c, (e + 2) * c));
    }
}

/// The storages after one more entity received, in each storage, the group
/// that `m` files under its class.
proof fn lemma_add_blocks(
    old_st: Seq<(Seq<char>, ComponentStorage)>,
    new_st: Seq<(Seq<char>, ComponentStorage)>,
    n0: int,
    m: Map<Seq<char>, Seq<AnyComponent>>,
)
    requires
        0 <= n0,
        old_st.len() == new_st.len(),
        forall|i: int|
            0 <= i < old_st.len() ==> (#[trigger] new_st[i]).0 == old_st[i].0
                && new_st[i].1.per_entity() == old_st[i].1.per_entity() && new_st[i].1.items()
                == old_st[i].1.items() + m[old_st[i].0] && old_st[i].1.items().len() == n0
                * old_st[i].1.per_entity() && new_st[i].1.items().len() == (n0 + 1)
                * old_st[i].1.per_entity(),
    ensures
        forall|e: int|
            0 <= e < n0 ==> #[trigger] components_of(new_st, e) == components_of(old_st, e),
        components_of(new_st, n0) == concat_groups(assoc_keys(old_st), m),
{
    assert forall|i: int| 0 <= i < old_st.len() implies (#[trigger] m[old_st[i].0]).len()
        == old_st[i].1.per_entity() by {
        let c = old_st[i].1.per_entity() as int;
        assert(new_st[i].1.items().len() == (n0 + 1) * c);
        assert(old_st[i].1.items().len() == n0 * c);
        assert((n0 + 1) * c == n0 * c + c) by (nonlinear_arith);
    }
    assert forall|e: int| 0 <= e < n0 implies #[trigger] components_of(new_st, e) == components_of(
        old_st,
        e,
    ) by {
        assert forall|i: int| 0 <= i < new_st.len() implies (#[trigger] new_st[i]).1.entity_items(e)
            == old_st[i].1.entity_items(e) by {
            let c = old_st[i].1.per_entity() as int;
            assert(new_st[i].1.items() == old_st[i].1.items() + m[old_st[i].0]);
            assert(old_st[i].1.items().len() == n0 * c);
            assert((n0 + 1) * c == n0 * c + c) by (nonlinear_arith);
            lemma_block_after_push(old_st[i].1.items(), m[old_st[i].0], n0, c, e);
        }
        lemma_components_of_same(new_st, e, old_st, e);
    }
    assert forall|i: int| 0 <= i < new_st.len() implies (#[trigger] new_st[i]).1.entity_items(n0)
        == m[new_st[i].0] by {
        let c = old_st[i].1.per_entity() as int;
        assert(new_st[i].1.items() == old_st[i].1.items() + m[old_st[i].0]);
        assert(old_st[i].1.items().len() == n0 * c);
        assert((n0 + 1) * c == n0 * c + c) by (nonlinear_arith);
        lemma_block_after_push(old_st[i].1.items(), m[old_st[i].0], n0, c, n0);
    }
    lemma_components_of_groups(new_st, n0, m);
    assert(assoc_keys(new_st) =~= assoc_keys(old_st));
}

/// The storages after the block of entity `idx` was taken out of each.
proof fn lemma_remove_blocks(
    old_st: Seq<(Seq<char>, ComponentStorage)>,
    new_st: Seq<(Seq<char>, ComponentStorage)>,
    n0: int,
    idx: int,
)
    requires
        0 <= idx < n0,
        old_st.len() == new_st.len(),
        forall|i: int|
            0 <= i < old_st.len() ==> (#[trigger] new_st[i]).1.per_entity()
                == old_st[i].1.per_entity() && old_st[i].1.items().len() == n0
                * old_st[i].1.per_entity() && new_st[i].1.items() == old_st[i].1.items().subrange(
                0,
                idx * old_st[i].1.per_entity(),
            ) + old_st[i].1.items().subrange(
                (idx + 1) * old_st[i].1.per_entity(),
                old_st[i].1.items().len() as int,
            ),
    ensures
        forall|e: int|
            0 <= e < idx ==> #[trigger] components_of(new_st, e) == components_of(old_st, e),
        forall|e: int|
            idx <= e < n0 - 1 ==> #[trigger] components_of(new_st, e) == components_of(
                old_st,
                e + 1,
            ),
{
    assert forall|e: int| 0 <= e < idx implies #[trigger] components_of(new_st, e)
        == components_of(old_st, e) by {
        assert forall|i: int| 0 <= i < new_st.len() implies (#[trigger] new_st[i]).1.entity_items(e)
            == old_st[i].1.entity_items(e) by {
            let c = old_st[i].1.per_entity() as int;
            assert(new_st[i].1.per_entity() == old_st[i].1.per_entity());
            assert(old_st[i].1.items().len() == n0 * c);
            lemma_block_after_remove(old_st[i].1.items(), n0, c, idx, e);
        }
        lemma_components_of_same(new_st, e, old_st, e);
    }
    assert forall|e: int| idx <= e < n0 - 1 implies #[trigger] components_of(new_st, e)
        == components_of(old_st, e + 1) by {
        assert forall|i: int| 0 <= i < new_st.len() implies (#[trigger] new_st[i]).1.entity_items(e)
            == old_st[i].1.entity_items(e + 1) by {
            let c = old_st[i].1.per_entity() as int;
            assert(new_st[i].1.per_entity() == old_st[i].1.per_entity());
            assert(old_st[i].1.items().len() == n0 * c);
            lemma_block_after_remove(old_st[i].1.items(), n0, c, idx, e);
            assert((e + 1 + 1) * c == (e + 2) * c);
        }
        lemma_components_of_same(new_st, e, old_st, e + 1);
    }
}

/// Reading, in a map that files each storage's components under its class,
/// the places that `slots_of` gives for entity `e` yields its components;
/// each place is in a storage of the list.
proof fn lemma_slots_read(
    st: Seq<(Seq<char>, ComponentStorage)>,
    e: int,
    m: Map<Seq<char>, Seq<AnyComponent>>,
)
    requires
        forall|j: int|
            0 <= j < st.len() ==> #[trigger] m[st[j].0] == st[j].1.items() && 0 <= e
                * st[j].1.per_entity() && (e + 1) * st[j].1.per_entity() <= st[j].1.items().len(),
    ensures
        slots_of(st, e).len() == components_of(st, e).len(),
        forall|i: int|
            0 <= i < slots_of(st, e).len() ==> (exists|j: int|
                0 <= j < st.len() && st[j].0 == (#[trigger] slots_of(st, e)[i]).0) && 0
                <= slots_of(st, e)[i].1 < m[slots_of(st, e)[i].0].len() && m[slots_of(
                st,
                e,
            )[i].0][slots_of(st, e)[i].1] == components_of(st, e)[i],
    decreases st.len(),
{
    if st.len() > 0 {
        let rest = st.drop_last();
        let n = st.len() - 1;
        assert forall|j: int| 0 <= j < rest.len() implies #[trigger] m[rest[j].0] == rest[j].1.items()
            && 0 <= e * rest[j].1.per_entity() && (e + 1) * rest[j].1.per_entity()
            <= rest[j].1.items().len() by {
            assert(rest[j] == st[j]);
        }
        lemma_slots_read(rest, e, m);
        let last = st[n];
        assert(st.last() == last);
        let c = last.1.per_entity() as int;
        assert(m[st[n].0] == last.1.items());
        assert((e + 1) * c == e * c + c) by (nonlinear_arith);
        let prev_slots = slots_of(rest, e);
        let prev_comps = components_of(rest, e);
        let new_slots = storage_slots(last.0, last.1.per_entity(), e);
        let block = last.1.entity_items(e);
        assert(block.len() == c);
        assert forall|i: int| 0 <= i < slots_of(st, e).len() implies (exists|j: int|
            0 <= j < st.len() && st[j].0 == (#[trigger] slots_of(st, e)[i]).0) && 0 <= slots_of(
            st,
            e,
        )[i].1 < m[slots_of(st, e)[i].0].len() && m[slots_of(st, e)[i].0][slots_of(st, e)[i].1]
            == components_of(st, e)[i] by {
            if i < prev_slots.len() {
                assert(slots_of(st, e)[i] == prev_slots[i]);
                assert(components_of(st, e)[i] == prev_comps[i]);
                let j = choose|j: int| 0 <= j < rest.len() && rest[j].0 == prev_slots[i].0;
                assert(st[j] == rest[j]);
            } else {
                let k = i - prev_slots.len();
                assert(slots_of(st, e)[i] == new_slots[k]);
                assert(components_of(st, e)[i] == block[k]);
                assert(st[n].0 == slots_of(st, e)[i].0);
            }
        }
    }
}

/// With storages in name order, each holding components of its class, the
/// components of an entity come in name order, each of the class of one of
/// the storages.
proof fn lemma_components_of_ordered(st: Seq<(Seq<char>, ComponentStorage)>, e: int)
    requires
        keys_sorted(assoc_keys(st)),
        forall|i: int|
            0 <= i < st.len() ==> 0 <= e * (#[trigger] st[i]).1.per_entity() && (e + 1)
                * st[i].1.per_entity() <= st[i].1.items().len() && forall|k: int|
                0 <= k < st[i].1.items().len() ==> (#[trigger] st[i].1.items()[k]).class_name@
                    == st[i].0,
    ensures
        names_ordered(components_of(st, e)),
        forall|m: int|
            0 <= m < components_of(st, e).len() ==> exists|i: int|
                0 <= i < st.len() && (#[trigger] components_of(st, e)[m]).class_name@ == st[i].0,
    decreases st.len(),
{
    if st.len() > 0 {
        let rest = st.drop_last();
        let n = st.len() - 1;
        assert(assoc_keys(rest) =~= assoc_keys(st).drop_last());
        assert forall|i: int| 0 <= i < rest.len() implies 0 <= e * (#[trigger] rest[i]).1.per_entity()
            && (e + 1) * rest[i].1.per_entity() <= rest[i].1.items().len() && forall|k: int|
            0 <= k < rest[i].1.items().len() ==> (#[trigger] rest[i].1.items()[k]).class_name@
                == rest[i].0 by {
            assert(rest[i] == st[i]);
        }
        lemma_components_of_ordered(rest, e);
        let prev = components_of(rest, e);
        let block = st[n].1.entity_items(e);
        let key = st[n].0;
        assert(st.last() == st[n]);
        let c = st[n].1.per_entity() as int;
        assert((e + 1) * c == e * c + c) by (nonlinear_arith);
        assert forall|k: int| 0 <= k < block.len() implies (#[trigger] block[k]).class_name@ == key by {
            assert(block[k] == st[n].1.items()[e * c + k]);
        }
        let all = components_of(st, e);
        assert(all == prev + block);
        assert forall|m: int| 0 <= m < all.len() implies exists|i: int|
            0 <= i < st.len() && (#[trigger] all[m]).class_name@ == st[i].0 by {
            if m < prev.len() {
                assert(all[m] == prev[m]);
                let i = choose|i: int| 0 <= i < rest.len() && prev[m].class_name@ == rest[i].0;
                assert(rest[i] == st[i]);
            } else {
                assert(all[m] == block[m - prev.len()]);
            }
        }
        assert forall|i: int, j: int| 0 <= i < j < all.len() implies name_le(
            #[trigger] all[i].class_name@,
            #[trigger] all[j].class_name@,
        ) by {
            if j < prev.len() {
                assert(all[i] == prev[i]);
                assert(all[j] == prev[j]);
            } else if i >= prev.len() {
                assert(all[i] == block[i - prev.len()]);
                assert(all[j] == block[j - prev.len()]);
            } else {
                assert(all[i] == prev[i]);
                assert(all[j] == block[j - prev.len()]);
                let q = choose|q: int| 0 <= q < rest.len() && prev[i].class_name@ == rest[q].0;
                assert(rest[q] == st[q]);
                assert(assoc_keys(st)[q] == st[q].0);
                assert(assoc_keys(st)[n] == key);
                assert(name_less(assoc_keys(st)[q], assoc_keys(st)[n]));
            }
        }
    }
}

impl Archetype {
    /// The number of entities.
    pub open spec fn entity_count(&self) -> nat {
        self.entity_ids().len()
    }

    /// The ids of the entities, in order.
    pub closed spec fn entity_ids(&self) -> Seq<EntityId> {
        self.entity_id_array@
    }

    /// The names of the entities, in order.
    pub closed spec fn names(&self) -> Seq<Seq<char>> {
        self.name_array@.map_values(|n: String| n@)
    }

    /// The enabled flags of the entities, in order.
    pub closed spec fn enabled_flags(&self) -> Seq<bool> {
        self.enabled_array@
    }

    /// The class names of the components every entity of the archetype has.
    pub closed spec fn type_names(&self) -> Seq<Seq<char>> {
        self.identifier@
    }

    /// The storages, in name order.
    pub closed spec fn storages(&self) -> Seq<(Seq<char>, ComponentStorage)> {
        storage_entries(self.component_storages@)
    }

    /// How many components of each class an entity of the archetype has.
    pub open spec fn layout(&self) -> Map<Seq<char>, nat> {
        assoc_map(storage_layout(self.storages()))
    }

    /// The components of entity `e`.
    pub open spec fn entity_components(&self, e: int) -> Seq<AnyComponent> {
        components_of(self.storages(), e)
    }

    /// The arrays agree in length, the storages are in name order, each
    /// storage holds a block of components of its class for every entity,
    /// and the blocks are laid out as the class names of the archetype say.
    pub closed spec fn wf(&self) -> bool {
        let n = self.entity_id_array@.len();
        let st = self.storages();
        &&& self.name_array@.len() == n
        &&& self.enabled_array@.len() == n
        &&& keys_sorted(assoc_keys(st))
        &&& forall|i: int|
            0 <= i < st.len() ==> (#[trigger] st[i]).1.per_entity() >= 1 && st[i].1.items().len()
                == n * st[i].1.per_entity() && forall|j: int|
                0 <= j < st[i].1.items().len() ==> (#[trigger] st[i].1.items()[j]).class_name@
                    == st[i].0
        &&& self.layout() == name_counts(self.type_names())
    }

    /// Returns an Archetype that holds a first entity; its identifier lists
    /// the class names of the components in the order given, and its
    /// storages, one per class in class-name order, each receive all the
    /// components of their class, in the order given.
    pub fn new(entity_id: EntityId, name: &str, enabled: bool, components: Vec<AnyComponent>) -> (res:
        Archetype)
        ensures
            res.wf(),
            res.entity_ids() == seq![entity_id],
            res.names() == seq![name@],
            res.enabled_flags() == seq![enabled],
            res.type_names() == class_names(components@),
            res.entity_components(0) == sorted_by_name(components@),
            names_ordered(components@) ==> res.entity_components(0) == components@,
    {
        let ghost given = components@;
        proof {
            if names_ordered(given) {
                lemma_sorted_by_name_ordered(given);
            }
            lemma_sorted_name_counts(given);
        }
        // Deduce the archetype properties from the first components
        let identifier = get_type_identifier_by_any(&components);
        let sorted = sort_components_by_name(components);
        let ghost s = sorted@;
        let mut res = Archetype::new_grouped(entity_id, name, enabled, sorted);
        proof {
            res.lemma_sorted_components(s);
        }
        res.identifier = identifier;
        res
    }

    /// Returns an Archetype that holds a first entity, its components filed
    /// by runs of one class.
    fn new_grouped(entity_id: EntityId, name: &str, enabled: bool, components: Vec<AnyComponent>) -> (res:
        Archetype)
        requires
            names_ordered(components@),
        ensures
            res.wf(),
            res.entity_ids() == seq![entity_id],
            res.names() == seq![name@],
            res.enabled_flags() == seq![enabled],
            res.type_names() == class_names(components@),
            assoc_map(storage_contents(res.storages())) == grouped_map(components@),
            res.entity_components(0) == concat_groups(
                assoc_keys(res.storages()),
                grouped_map(components@),
            ),
    {
        let ghost all = components@;
        // Deduce the archetype properties from the first components
        let identifier = get_type_identifier_by_any(&components);

        let mut entity_id_array: Vec<EntityId> = Vec::new();
        entity_id_array.push(entity_id);
        let mut name_array: Vec<String> = Vec::new();
        name_array.push(name.to_owned());
        let mut enabled_array: Vec<bool> = Vec::new();
        enabled_array.push(enabled);

        let mut grouped_components = group_components_by_type(components);
        let ghost groups = grouped_components@;
        let mut component_storages: Vec<(String, ComponentStorage)> = Vec::new();
        let count = grouped_components.len();
        let mut i: usize = 0;
        while i < count
            invariant
                count == groups.len(),
                i <= count,
                grouped_components@ == groups.skip(i as int),
                component_storages@.len() == i,
                forall|j: int|
                    0 <= j < groups.len() ==> (#[trigger] groups[j]).1@.len() > 0,
                forall|j: int|
                    0 <= j < i ==> (#[trigger] component_storages@[j]).0@ == groups[j].0@
                        && component_storages@[j].1.items() == groups[j].1@
                        && component_storages@[j].1.per_entity() == groups[j].1@.len(),
            decreases count - i,
        {
            let (class_name, group) = grouped_components.remove(0);
            assert(group@ == groups[i as int].1@);
            component_storages.push((class_name, ComponentStorage::new(group)));
            assert(grouped_components@ =~= groups.skip(i + 1));
            i = i + 1;
        }
        let res = Archetype {
            identifier,
            entity_id_array,
            name_array,
            enabled_array,
            component_storages,
        };
        proof {
            let st = res.storages();
            let ge = group_entries(groups);
            assert(assoc_keys(st) =~= assoc_keys(ge));
            assert(storage_contents(st) =~= ge);
            assert(assoc_keys(storage_layout(st)) =~= assoc_keys(ge));
            lemma_assoc_map_sorted(storage_layout(st));
            lemma_assoc_map_sorted(ge);
            lemma_grouped_layout(all);
            assert(res.layout() =~= name_layout(class_names(all))) by {
                assert forall|k: Seq<char>| #[trigger]
                    res.layout().contains_key(k) implies name_layout(
                    class_names(all),
                ).contains_key(k) && res.layout()[k] == name_layout(class_names(all))[k] by {
                    let j = choose|j: int|
                        0 <= j < st.len() && assoc_keys(storage_layout(st))[j] == k;
                    assert(assoc_keys(ge)[j] == k);
                    assert(ge[j].0 == k);
                    assert(assoc_map(ge)[ge[j].0] == ge[j].1);
                    assert(assoc_keys(ge).contains(k));
                    assert(grouped_map(all).contains_key(k));
                    assert(grouped_map(all)[k] == ge[j].1);
                    assert(storage_layout(st)[j] == (k, groups[j].1@.len()));
                    assert(res.layout()[storage_layout(st)[j].0] == storage_layout(st)[j].1);
                }
                assert forall|k: Seq<char>|
                    name_layout(class_names(all)).contains_key(k) implies #[trigger]
                    res.layout().contains_key(k) by {
                    assert(grouped_map(all).contains_key(k));
                    assert(assoc_keys(ge).contains(k));
                }
            }
            assert(res.names() =~= seq![name@]);
            assert(res.entity_ids() =~= seq![entity_id]);
            assert(res.enabled_flags() =~= seq![enabled]);
            assert forall|i: int| 0 <= i < st.len() implies (#[trigger] st[i]).1.per_entity() >= 1
                && st[i].1.items().len() == 1 * st[i].1.per_entity() && forall|j: int|
                0 <= j < st[i].1.items().len() ==> (#[trigger] st[i].1.items()[j]).class_name@
                    == st[i].0 by {
                assert(st[i].1.items() == groups[i].1@);
            }
            assert forall|i: int| 0 <= i < st.len() implies (#[trigger] st[i]).1.entity_items(0)
                == grouped_map(all)[st[i].0] by {
                assert(st[i].1.items() == groups[i].1@);
                assert(st[i].1.items().subrange(0, st[i].1.per_entity() as int) =~= st[i].1.items());
                assert(ge[i].0 == st[i].0);
                assert(assoc_map(ge)[ge[i].0] == ge[i].1);
            }
            lemma_components_of_groups(st, 0, grouped_map(all));
            lemma_class_names_ordered(all);
            lemma_name_layout_is_counts(class_names(all));
        }
        res
    }

    /// Returns the entity type identifier of the archetype.
    pub fn get_type_identifier(&self) -> (id: &EntityTypeIdentifier)
        ensures
            id@ == self.type_names(),
    {
        &self.identifier
    }

    /// Returns the entity count.
    pub fn len(&self) -> (n: usize)
        ensures
            n == self.entity_count(),
    {
        self.entity_id_array.len()
    }

    /// Components given in class-name order to an archetype, as many of
    /// each class as it keeps, are stored back in that order.
    pub proof fn lemma_sorted_components(&self, s: Seq<AnyComponent>)
        requires
            self.wf(),
            names_ordered(s),
            self.layout() == name_counts(class_names(s)),
        ensures
            concat_groups(assoc_keys(self.storages()), grouped_map(s)) == s,
    {
        lemma_class_names_ordered(s);
        lemma_name_layout_is_counts(class_names(s));
        let st = self.storages();
        lemma_grouped_layout(s);
        assert(assoc_keys(storage_layout(st)) =~= assoc_keys(st));
        lemma_assoc_map_sorted(storage_layout(st));
        assert forall|k: Seq<char>| #[trigger] assoc_keys(st).contains(k) <==> grouped_map(
            s,
        ).contains_key(k) by {
            assert(assoc_keys(storage_layout(st)).contains(k) <==> self.layout().contains_key(k));
        }
        lemma_sorted_regroup(s, assoc_keys(st));
    }

    /// An archetype has a storage for exactly the classes its identifier
    /// lists, and each entity keeps, of each class, as many components as
    /// the identifier lists that class.
    pub proof fn lemma_layout_counts(&self)
        requires
            self.wf(),
        ensures
            forall|k: Seq<char>| #[trigger] self.layout().contains_key(k) <==> self.type_names().contains(k),
            forall|k: Seq<char>|
                self.type_names().contains(k) ==> #[trigger] self.layout()[k] == name_count(
                    self.type_names(),
                    k,
                ),
    {
    }

    /// An archetype keeps, for each class, as many components per entity as
    /// its class names count, and its storages in class-name order.
    pub proof fn lemma_layout(&self)
        requires
            self.wf(),
        ensures
            self.layout() == name_counts(self.type_names()),
            self.names().len() == self.entity_count(),
            self.enabled_flags().len() == self.entity_count(),
            keys_sorted(assoc_keys(self.storages())),
    {
    }

    /// Renames the entity at `index`.
    pub fn set_name(&mut self, index: usize, name: &str)
        requires
            old(self).wf(),
            index < old(self).entity_count(),
        ensures
            final(self).wf(),
            final(self).entity_ids() == old(self).entity_ids(),
            final(self).names() == old(self).names().update(index as int, name@),
            final(self).enabled_flags() == old(self).enabled_flags(),
            final(self).type_names() == old(self).type_names(),
            final(self).storages() == old(self).storages(),
    {
        self.name_array.set(index, name.to_owned());
        assert(self.names() =~= old(self).names().update(index as int, name@));
    }

    /// Enables or disables the entity at `index`.
    pub fn set_enabled(&mut self, index: usize, enabled: bool)
        requires
            old(self).wf(),
            index < old(self).entity_count(),
        ensures
            final(self).wf(),
            final(self).entity_ids() == old(self).entity_ids(),
            final(self).names() == old(self).names(),
            final(self).enabled_flags() == old(self).enabled_flags().update(index as int, enabled),
            final(self).type_names() == old(self).type_names(),
            final(self).storages() == old(self).storages(),
    {
        self.enabled_array.set(index, enabled);
        assert(self.names() =~= old(self).names());
    }

    /// Replaces the component at `component_index` in the storage of class
    /// `component_identifier` by one of the same class.
    pub fn set_component(
        &mut self,
        component_identifier: &str,
        component_index: usize,
        component: AnyComponent,
    )
        requires
            old(self).wf(),
            old(self).has_component(component_identifier@, component_index as int),
            component.class_name@ == component_identifier@,
        ensures
            final(self).wf(),
            final(self).component_replaced(
                *old(self),
                component_identifier@,
                component_index as int,
                component,
            ),
    {
        let ghost old_st = self.storages();
        let j = self.find_storage(component_identifier).unwrap();
        proof {
            self.lemma_storage_maps(j as int);
            assert(self.storages()[j as int].1 == self.component_storages@[j as int].1);
        }
        let ghost key = old_st[j as int].0;
        let ghost new_items = old_st[j as int].1.items().update(component_index as int, component);
        self.component_storages[j].1.set(component_index, component);
        proof {
            let st = self.storages();
            assert forall|i: int| 0 <= i < st.len() implies #[trigger] st[i] == if i == j {
                (key, st[j as int].1)
            } else {
                old_st[i]
            } by {
                assert(st[i] == (self.component_storages@[i].0@, self.component_storages@[i].1));
                assert(old_st[i] == (old(self).component_storages@[i].0@, old(self).component_storages@[i].1));
            }
            assert(assoc_keys(st) =~= assoc_keys(old_st));
            assert(storage_layout(st) =~= storage_layout(old_st));
            let oc = storage_contents(old_st);
            let nc = storage_contents(st);
            assert(nc =~= oc.update(j as int, (key, new_items)));
            assert(assoc_keys(oc) =~= assoc_keys(old_st));
            assert(assoc_keys(nc) =~= assoc_keys(st));
            lemma_assoc_map_sorted(oc);
            lemma_assoc_map_sorted(nc);
            assert(oc[j as int].0 == key);
            assert(assoc_map(nc) =~= assoc_map(oc).insert(key, new_items)) by {
                assert forall|k: Seq<char>| #[trigger] assoc_map(nc).contains_key(k)
                    <==> assoc_map(oc).insert(key, new_items).contains_key(k) by {
                    if assoc_keys(oc).contains(k) {
                        let m = choose|m: int| 0 <= m < oc.len() && assoc_keys(oc)[m] == k;
                        assert(assoc_keys(nc)[m] == k);
                    }
                    if assoc_keys(nc).contains(k) {
                        let m = choose|m: int| 0 <= m < nc.len() && assoc_keys(nc)[m] == k;
                        assert(assoc_keys(oc)[m] == k);
                    }
                    assert(assoc_keys(oc)[j as int] == key);
                }
                assert forall|k: Seq<char>| #[trigger] assoc_map(nc).contains_key(k) implies assoc_map(
                    nc,
                )[k] == assoc_map(oc).insert(key, new_items)[k] by {
                    assert(assoc_keys(nc).contains(k));
                    let m = choose|m: int| 0 <= m < nc.len() && assoc_keys(nc)[m] == k;
                    assert(nc[m].0 == k);
                    assert(assoc_map(nc)[nc[m].0] == nc[m].1);
                    assert(assoc_map(oc)[oc[m].0] == oc[m].1);
                    if m != j {
                        assert(assoc_keys(oc)[m] == k);
                        assert(assoc_keys(oc)[j as int] == key);
                        if m < j {
                            assert(name_less(assoc_keys(oc)[m], assoc_keys(oc)[j as int]));
                        } else {
                            assert(name_less(assoc_keys(oc)[j as int], assoc_keys(oc)[m]));
                        }
                        lemma_name_less_irreflexive(k);
                        assert(k != key);
                    }
                }
            }
            assert(self.names() =~= old(self).names());
            assert forall|i: int| 0 <= i < st.len() implies (#[trigger] st[i]).1.per_entity() >= 1
                && st[i].1.items().len() == self.entity_id_array@.len() * st[i].1.per_entity()
                && forall|k: int|
                0 <= k < st[i].1.items().len() ==> (#[trigger] st[i].1.items()[k]).class_name@
                    == st[i].0 by {
                if i == j {
                    assert forall|k: int| 0 <= k < st[i].1.items().len() implies (
                    #[trigger] st[i].1.items()[k]).class_name@ == st[i].0 by {
                        if k != component_index {
                            assert(st[i].1.items()[k] == old_st[i].1.items()[k]);
                        }
                    }
                }
            }
        }
    }

    /// The components of an entity come in class-name order.
    pub proof fn lemma_entity_components_ordered(&self, e: int)
        requires
            self.wf(),
            0 <= e < self.entity_count(),
        ensures
            names_ordered(self.entity_components(e)),
    {
        let st = self.storages();
        assert forall|i: int| 0 <= i < st.len() implies 0 <= e * (#[trigger] st[i]).1.per_entity()
            && (e + 1) * st[i].1.per_entity() <= st[i].1.items().len() && forall|k: int|
            0 <= k < st[i].1.items().len() ==> (#[trigger] st[i].1.items()[k]).class_name@
                == st[i].0 by {
            let c = st[i].1.per_entity() as int;
            let n = self.entity_count() as int;
            assert(0 <= e * c) by (nonlinear_arith)
                requires
                    0 <= e,
                    0 <= c,
            ;
            assert((e + 1) * c <= n * c) by (nonlinear_arith)
                requires
                    e + 1 <= n,
                    0 <= c,
            ;
        }
        lemma_components_of_ordered(st, e);
    }

    /// Returns the id of the entity at `index`.
    pub fn get_entity_id(&self, index: usize) -> (id: EntityId)
        requires
            index < self.entity_count(),
        ensures
            id == self.entity_ids()[index as int],
    {
        self.entity_id_array[index]
    }

    /// Returns the name of the entity at `index`.
    pub fn get_name(&self, index: usize) -> (name: String)
        requires
            self.wf(),
            index < self.entity_count(),
        ensures
            name@ == self.names()[index as int],
    {
        self.name_array[index].clone()
    }

    /// Returns whether the entity at `index` is enabled.
    pub fn is_enabled(&self, index: usize) -> (enabled: bool)
        requires
            self.wf(),
            index < self.entity_count(),
        ensures
            enabled == self.enabled_flags()[index as int],
    {
        self.enabled_array[index]
    }

    /// The position of the storage of class `class_name`, if there is one.
    fn find_storage(&self, class_name: &str) -> (res: Option<usize>)
        ensures
            res matches Some(j) ==> j < self.storages().len() && self.storages()[j as int].0
                == class_name@,
            res is None ==> !assoc_keys(self.storages()).contains(class_name@),
    {
        let n = self.component_storages.len();
        let mut j: usize = 0;
        while j < n
            invariant
                n == self.storages().len(),
                j <= n,
                forall|m: int| 0 <= m < j ==> (#[trigger] self.storages()[m]).0 != class_name@,
            decreases n - j,
        {
            if str_eq(self.component_storages[j].0.as_str(), class_name) {
                return Some(j);
            }
            j = j + 1;
        }
        proof {
            if assoc_keys(self.storages()).contains(class_name@) {
                let m = choose|m: int|
                    0 <= m < n && assoc_keys(self.storages())[m] == class_name@;
                assert(self.storages()[m].0 == class_name@);
            }
        }
        None
    }

    /// Adds an entity: each storage receives the group of components of its
    /// class. Every class of the archetype must come with as many components
    /// as the archetype keeps per entity.
    pub fn add(&mut self, entity_id: EntityId, name: &str, enabled: bool, components: Vec<AnyComponent>)
        requires
            old(self).wf(),
            forall|k: Seq<char>|
                #[trigger] old(self).layout().contains_key(k) ==> name_count(
                    class_names(components@),
                    k,
                ) == old(self).layout()[k],
        ensures
            final(self).wf(),
            final(self).entity_ids() == old(self).entity_ids().push(entity_id),
            final(self).names() == old(self).names().push(name@),
            final(self).enabled_flags() == old(self).enabled_flags().push(enabled),
            final(self).type_names() == old(self).type_names(),
            final(self).storages().len() == old(self).storages().len(),
            forall|i: int|
                0 <= i < final(self).storages().len() ==> (#[trigger] final(self).storages()[i]).0
                    == old(self).storages()[i].0 && final(self).storages()[i].1.per_entity()
                    == old(self).storages()[i].1.per_entity() && final(self).storages()[i].1.items()
                    == old(self).storages()[i].1.items() + grouped_map(
                    sorted_by_name(components@),
                )[old(self).storages()[i].0],
            forall|e: int|
                0 <= e < old(self).entity_count() ==> #[trigger] final(self).entity_components(e)
                    == old(self).entity_components(e),
            final(self).entity_components(old(self).entity_count() as int) == concat_groups(
                assoc_keys(old(self).storages()),
                grouped_map(sorted_by_name(components@)),
            ),
            name_counts(class_names(components@)) == name_counts(old(self).type_names())
                ==> final(self).entity_components(old(self).entity_count() as int)
                == sorted_by_name(components@),
    {
        let ghost given = components@;
        let sorted = sort_components_by_name(components);
        let ghost s = sorted@;
        proof {
            lemma_sorted_name_counts(given);
            lemma_class_names_ordered(s);
            lemma_name_layout_is_counts(class_names(s));
            assert forall|k: Seq<char>| #[trigger] old(self).layout().contains_key(k) implies name_layout(
                class_names(s),
            ).contains_key(k) && name_layout(class_names(s))[k] == old(self).layout()[k] by {
                lemma_name_count_positive(old(self).type_names(), k);
                lemma_name_count_positive(class_names(given), k);
                assert(name_counts(class_names(given)).contains_key(k));
            }
            if name_counts(class_names(given)) == name_counts(old(self).type_names()) {
                old(self).lemma_sorted_components(s);
            }
        }
        self.add_grouped(entity_id, name, enabled, sorted);
    }

    /// Adds an entity whose components are filed by runs of one class.
    #[verifier::rlimit(40)]
    fn add_grouped(&mut self, entity_id: EntityId, name: &str, enabled: bool, components: Vec<AnyComponent>)
        requires
            old(self).wf(),
            forall|k: Seq<char>|
                #[trigger] old(self).layout().contains_key(k) ==> name_layout(
                    class_names(components@),
                ).contains_key(k) && name_layout(class_names(components@))[k] == old(
                    self,
                ).layout()[k],
        ensures
            final(self).wf(),
            final(self).entity_ids() == old(self).entity_ids().push(entity_id),
            final(self).names() == old(self).names().push(name@),
            final(self).enabled_flags() == old(self).enabled_flags().push(enabled),
            final(self).type_names() == old(self).type_names(),
            final(self).storages().len() == old(self).storages().len(),
            forall|i: int|
                0 <= i < final(self).storages().len() ==> (#[trigger] final(self).storages()[i]).0
                    == old(self).storages()[i].0 && final(self).storages()[i].1.per_entity()
                    == old(self).storages()[i].1.per_entity() && final(self).storages()[i].1.items()
                    == old(self).storages()[i].1.items() + grouped_map(components@)[old(
                    self,
                ).storages()[i].0],
            forall|e: int|
                0 <= e < old(self).entity_count() ==> #[trigger] final(self).entity_components(e)
                    == old(self).entity_components(e),
            final(self).entity_components(old(self).entity_count() as int) == concat_groups(
                assoc_keys(old(self).storages()),
                grouped_map(components@),
            ),
    {
        let ghost all = components@;
        let ghost old_st = self.storages();
        let ghost n0 = self.entity_id_array@.len();
        self.entity_id_array.push(entity_id);
        self.name_array.push(name.to_owned());
        self.enabled_array.push(enabled);
        assert(self.names() =~= old(self).names().push(name@));

        let mut groups = group_components_by_type(components);
        let ghost g = groups@;
        let ghost ge = group_entries(g);
        proof {
            lemma_assoc_map_sorted(ge);
            lemma_grouped_layout(all);
        }
        let count = groups.len();
        let mut t: usize = 0;
        while t < count
            invariant
                count == g.len(),
                t <= count,
                ge == group_entries(g),
                groups@ == g.skip(t as int),
                keys_sorted(assoc_keys(ge)),
                assoc_map(ge) == grouped_map(all),
                forall|k: Seq<char>|
                    #[trigger] grouped_map(all).contains_key(k) ==> grouped_map(all)[k].len()
                        == name_layout(class_names(all))[k],
                forall|k: Seq<char>|
                    #[trigger] grouped_map(all).contains_key(k) <==> name_layout(
                        class_names(all),
                    ).contains_key(k),
                forall|k: Seq<char>|
                    #[trigger] assoc_map(ge).contains_key(k) <==> assoc_keys(ge).contains(k),
                forall|i: int| 0 <= i < ge.len() ==> #[trigger] assoc_map(ge)[ge[i].0] == ge[i].1,
                forall|i: int, j: int|
                    0 <= i < g.len() && 0 <= j < g[i].1@.len() ==> (#[trigger] g[i].1@[j]).class_name@
                        == g[i].0@,
                forall|k: Seq<char>|
                    #[trigger] assoc_map(storage_layout(old_st)).contains_key(k) ==> name_layout(
                        class_names(all),
                    ).contains_key(k) && name_layout(class_names(all))[k] == assoc_map(
                        storage_layout(old_st),
                    )[k],
                keys_sorted(assoc_keys(old_st)),
                self.storages().len() == old_st.len(),
                forall|i: int|
                    0 <= i < old_st.len() ==> (#[trigger] self.storages()[i]).0 == old_st[i].0
                        && self.storages()[i].1.per_entity() == old_st[i].1.per_entity()
                        && self.storages()[i].1.items() == old_st[i].1.items() + (if assoc_keys(
                        ge.take(t as int),
                    ).contains(old_st[i].0) {
                        grouped_map(all)[old_st[i].0]
                    } else {
                        Seq::<AnyComponent>::empty()
                    }),
                self.entity_id_array@ == old(self).entity_id_array@.push(entity_id),
                self.name_array@.len() == old(self).name_array@.len() + 1,
                self.names() == old(self).names().push(name@),
                self.enabled_array@ == old(self).enabled_array@.push(enabled),
                self.identifier == old(self).identifier,
            decreases count - t,
        {
            let (class_name, group) = groups.remove(0);
            proof {
                assert(g[t as int] == (class_name, group));
                assert(ge[t as int] == (class_name@, group@));
                assert(groups@ =~= g.skip(t + 1));
                assert(assoc_keys(ge.take(t + 1)) =~= assoc_keys(ge.take(t as int)).push(
                    class_name@,
                ));
                // The key of this group did not come before.
                assert forall|m: int| 0 <= m < t implies #[trigger] assoc_keys(
                    ge.take(t as int),
                )[m] != class_name@ by {
                    assert(name_less(assoc_keys(ge)[m], assoc_keys(ge)[t as int]));
                    lemma_name_less_irreflexive(class_name@);
                }
            }
            let ghost before = self.component_storages@;
            let ghost before_st = self.storages();
            let found = self.find_storage(class_name.as_str());
            match found {
                Some(j) => {
                    proof {
                        let key = old_st[j as int].0;
                        assert(assoc_keys(old_st)[j as int] == key);
                        assert(assoc_keys(storage_layout(old_st)) =~= assoc_keys(old_st));
                        lemma_assoc_map_sorted(storage_layout(old_st));
                        assert(assoc_map(storage_layout(old_st))[storage_layout(old_st)[j as int].0]
                            == storage_layout(old_st)[j as int].1);
                        assert(assoc_keys(storage_layout(old_st)).contains(key));
                        assert(assoc_map(storage_layout(old_st)).contains_key(key));
                        assert(name_layout(class_names(all)).contains_key(key));
                        assert(grouped_map(all).contains_key(key));
                        assert(assoc_map(ge).contains_key(key));
                        assert(assoc_keys(ge).contains(key));
                        assert(assoc_map(ge)[ge[t as int].0] == ge[t as int].1);
                        assert(grouped_map(all)[key] == group@);
                    }
                    self.component_storages[j].1.add(group);
                },
                None => {},
            }
            proof {
                assert forall|i: int| 0 <= i < old_st.len() implies (#[trigger] self.storages()[i]).0
                    == old_st[i].0 && self.storages()[i].1.per_entity() == old_st[i].1.per_entity()
                    && self.storages()[i].1.items() == old_st[i].1.items() + (if assoc_keys(
                    ge.take(t + 1),
                ).contains(old_st[i].0) {
                    grouped_map(all)[old_st[i].0]
                } else {
                    Seq::<AnyComponent>::empty()
                }) by {
                    assert(self.storages()[i] == (self.component_storages@[i].0@, self.component_storages@[i].1));
                    assert(before_st[i] == (before[i].0@, before[i].1));
                    let key = old_st[i].0;
                    assert(before_st[i].0 == key);
                    if key == class_name@ {
                        assert(assoc_keys(before_st)[i] == class_name@);
                        assert(assoc_keys(before_st).contains(class_name@));
                        assert(found is Some);
                        let jj = found->0 as int;
                        if jj != i {
                            assert(before_st[jj].0 == class_name@);
                            assert(assoc_keys(old_st)[jj] == class_name@);
                            assert(assoc_keys(old_st)[i] == class_name@);
                            if jj < i {
                                assert(name_less(assoc_keys(old_st)[jj], assoc_keys(old_st)[i]));
                            } else {
                                assert(name_less(assoc_keys(old_st)[i], assoc_keys(old_st)[jj]));
                            }
                            lemma_name_less_irreflexive(class_name@);
                        }
                        assert(!assoc_keys(ge.take(t as int)).contains(class_name@));
                        assert(assoc_keys(ge.take(t + 1))[t as int] == class_name@);
                        assert(assoc_keys(ge.take(t + 1)).contains(class_name@));
                        assert(old_st[i].1.items() + Seq::<AnyComponent>::empty() =~= old_st[i].1.items());
                    } else {
                        if found is Some {
                            assert(i != found->0);
                            assert(self.component_storages@[i] == before[i]);
                            assert(self.storages()[i] == before_st[i]);
                        } else {
                            assert(self.component_storages@ == before);
                        }
                        if assoc_keys(ge.take(t + 1)).contains(key) {
                            let m = choose|m: int|
                                0 <= m < t + 1 && #[trigger] assoc_keys(ge.take(t + 1))[m] == key;
                            assert(assoc_keys(ge.take(t as int))[m] == key);
                        }
                        if assoc_keys(ge.take(t as int)).contains(key) {
                            let m = choose|m: int|
                                0 <= m < t && #[trigger] assoc_keys(ge.take(t as int))[m] == key;
                            assert(assoc_keys(ge.take(t + 1))[m] == key);
                        }
                    }
                }
            }
            t = t + 1;
        }
        proof {
            let st = self.storages();
            let n = n0 + 1;
            lemma_assoc_map_sorted(ge);
            lemma_grouped_layout(all);
            assert(ge.take(count as int) =~= ge);
            assert(assoc_keys(storage_layout(old_st)) =~= assoc_keys(old_st));
            lemma_assoc_map_sorted(storage_layout(old_st));
            assert forall|i: int| 0 <= i < old_st.len() implies assoc_keys(ge).contains(
                #[trigger] old_st[i].0,
            ) by {
                assert(assoc_keys(storage_layout(old_st))[i] == old_st[i].0);
                assert(assoc_keys(storage_layout(old_st)).contains(old_st[i].0));
                assert(assoc_map(storage_layout(old_st)).contains_key(old_st[i].0));
                assert(old(self).layout().contains_key(old_st[i].0));
                assert(name_layout(class_names(all)).contains_key(old_st[i].0));
                assert(grouped_map(all).contains_key(old_st[i].0));
                assert(assoc_map(ge).contains_key(old_st[i].0));
            }
            assert(assoc_keys(st) =~= assoc_keys(old_st));
            assert(storage_layout(st) =~= storage_layout(old_st));
            assert forall|i: int| 0 <= i < st.len() implies (#[trigger] st[i]).1.per_entity() >= 1
                && st[i].1.items().len() == n * st[i].1.per_entity() && forall|j: int|
                0 <= j < st[i].1.items().len() ==> (#[trigger] st[i].1.items()[j]).class_name@
                    == st[i].0 by {
                let key = old_st[i].0;
                let c = old_st[i].1.per_entity() as int;
                assert(assoc_keys(storage_layout(old_st))[i] == key);
                assert(assoc_map(storage_layout(old_st))[storage_layout(old_st)[i].0]
                    == storage_layout(old_st)[i].1);
                assert(assoc_keys(storage_layout(old_st)).contains(key));
                assert(assoc_map(storage_layout(old_st)).contains_key(key));
                assert(grouped_map(all).contains_key(key));
                assert(grouped_map(all)[key].len() == c);
                assert(old_st[i].1.items().len() == n0 * c);
                assert(n * c == n0 * c + c) by (nonlinear_arith)
                    requires
                        n == n0 + 1,
                ;
                let gi = choose|m: int| 0 <= m < ge.len() && assoc_keys(ge)[m] == key;
                assert(ge[gi].0 == key);
                assert(grouped_map(all)[key] == g[gi].1@);
                assert forall|j: int| 0 <= j < st[i].1.items().len() implies (#[trigger] st[i].1.items()[j]).class_name@
                    == st[i].0 by {
                    if j >= old_st[i].1.items().len() {
                        assert(st[i].1.items()[j] == g[gi].1@[j - old_st[i].1.items().len()]);
                    }
                }
            }
        }
        proof {
            let st = self.storages();
            assert forall|i: int| 0 <= i < old_st.len() implies (#[trigger] st[i]).0 == old_st[i].0
                && st[i].1.per_entity() == old_st[i].1.per_entity() && st[i].1.items()
                == old_st[i].1.items() + grouped_map(all)[old_st[i].0] && old_st[i].1.items().len()
                == n0 * old_st[i].1.per_entity() && st[i].1.items().len() == (n0 + 1)
                * old_st[i].1.per_entity() by {
                assert(old_st[i].1.items().len() == n0 * old_st[i].1.per_entity());
                assert(st[i].1.items().len() == (n0 + 1) * st[i].1.per_entity());
            }
            lemma_add_blocks(old_st, st, n0 as int, grouped_map(all));
        }
    }

    /// Removes the entity at `index` and returns its properties and its
    /// components; the entities after it move down by one.
    #[verifier::rlimit(40)]
    pub fn remove(&mut self, index: usize) -> (res: (EntityProperties, Vec<AnyComponent>))
        requires
            old(self).wf(),
            index < old(self).entity_count(),
        ensures
            final(self).wf(),
            final(self).entity_ids() == old(self).entity_ids().remove(index as int),
            final(self).names() == old(self).names().remove(index as int),
            final(self).enabled_flags() == old(self).enabled_flags().remove(index as int),
            final(self).type_names() == old(self).type_names(),
            res.0.entity_id == old(self).entity_ids()[index as int],
            res.0.name@ == old(self).names()[index as int],
            res.0.enabled == old(self).enabled_flags()[index as int],
            res.1@ == old(self).entity_components(index as int),
            final(self).storages().len() == old(self).storages().len(),
            forall|i: int|
                0 <= i < final(self).storages().len() ==> (#[trigger] final(self).storages()[i]).0
                    == old(self).storages()[i].0 && final(self).storages()[i].1.per_entity()
                    == old(self).storages()[i].1.per_entity() && final(self).storages()[i].1.items()
                    == old(self).storages()[i].1.items().subrange(
                    0,
                    index * old(self).storages()[i].1.per_entity(),
                ) + old(self).storages()[i].1.items().subrange(
                    (index + 1) * old(self).storages()[i].1.per_entity(),
                    old(self).storages()[i].1.items().len() as int,
                ),
            forall|e: int|
                0 <= e < index ==> #[trigger] final(self).entity_components(e) == old(
                    self,
                ).entity_components(e),
            forall|e: int|
                index <= e < final(self).entity_count() ==> #[trigger] final(self).entity_components(
                    e,
                ) == old(self).entity_components(e + 1),
    {
        let ghost old_st = self.storages();
        let ghost n0 = self.entity_id_array@.len();
        let entity_id = self.entity_id_array.remove(index);
        let name = self.name_array.remove(index);
        let enabled = self.enabled_array.remove(index);

        let mut components: Vec<AnyComponent> = Vec::new();
        let count = self.component_storages.len();
        let mut j: usize = 0;
        assert(old_st.take(0) =~= Seq::<(Seq<char>, ComponentStorage)>::empty());
        while j < count
            invariant
                count == old_st.len(),
                j <= count,
                index < n0,
                components@ == components_of(old_st.take(j as int), index as int),
                self.storages().len() == old_st.len(),
                forall|i: int|
                    0 <= i < old_st.len() ==> (#[trigger] old_st[i]).1.per_entity() >= 1
                        && old_st[i].1.items().len() == n0 * old_st[i].1.per_entity(),
                forall|i: int|
                    0 <= i < old_st.len() ==> (#[trigger] self.storages()[i]).0 == old_st[i].0
                        && self.storages()[i].1.per_entity() == old_st[i].1.per_entity()
                        && self.storages()[i].1.items() == if i < j {
                        old_st[i].1.items().subrange(0, index * old_st[i].1.per_entity())
                            + old_st[i].1.items().subrange(
                            (index + 1) * old_st[i].1.per_entity(),
                            old_st[i].1.items().len() as int,
                        )
                    } else {
                        old_st[i].1.items()
                    },
                self.entity_id_array@ == old(self).entity_id_array@.remove(index as int),
                self.name_array@ == old(self).name_array@.remove(index as int),
                self.enabled_array@ == old(self).enabled_array@.remove(index as int),
                self.identifier == old(self).identifier,
            decreases count - j,
        {
            proof {
                let c = old_st[j as int].1.per_entity() as int;
                let e = index as int;
                assert((e + 1) * c <= n0 * c) by (nonlinear_arith)
                    requires
                        e + 1 <= n0,
                        c >= 0,
                ;
                assert(self.storages()[j as int].1 == self.component_storages@[j as int].1);
            }
            let ghost before = self.component_storages@;
            let ghost before_st = self.storages();
            let mut removed = self.component_storages[j].1.remove(index);
            components.append(&mut removed);
            proof {
                assert(self.component_storages@.len() == before.len());
                assert forall|i: int| 0 <= i < before.len() && i != j implies #[trigger]
                    self.component_storages@[i] == before[i] by {}
                assert(self.component_storages@[j as int].0 == before[j as int].0);
                assert forall|i: int| 0 <= i < old_st.len() implies (#[trigger] self.storages()[i]).0
                    == old_st[i].0 && self.storages()[i].1.per_entity() == old_st[i].1.per_entity()
                    && self.storages()[i].1.items() == if i < j + 1 {
                    old_st[i].1.items().subrange(0, index * old_st[i].1.per_entity())
                        + old_st[i].1.items().subrange(
                        (index + 1) * old_st[i].1.per_entity(),
                        old_st[i].1.items().len() as int,
                    )
                } else {
                    old_st[i].1.items()
                } by {
                    assert(self.storages()[i] == (self.component_storages@[i].0@, self.component_storages@[i].1));
                    assert(before_st[i] == (before[i].0@, before[i].1));
                    if i != j {
                        assert(self.storages()[i] == before_st[i]);
                    }
                }
                assert(old_st.take(j + 1).drop_last() =~= old_st.take(j as int));
                assert(old_st.take(j + 1).last() == old_st[j as int]);
            }
            j = j + 1;
        }
        proof {
            let st = self.storages();
            let n = n0 - 1;
            assert(old_st.take(count as int) =~= old_st);
            assert(assoc_keys(st) =~= assoc_keys(old_st));
            assert(storage_layout(st) =~= storage_layout(old_st));
            assert(self.names() =~= old(self).names().remove(index as int));
            assert forall|i: int| 0 <= i < st.len() implies (#[trigger] st[i]).1.per_entity() >= 1
                && st[i].1.items().len() == n * st[i].1.per_entity() && forall|k: int|
                0 <= k < st[i].1.items().len() ==> (#[trigger] st[i].1.items()[k]).class_name@
                    == st[i].0 by {
                let c = old_st[i].1.per_entity() as int;
                let e = index as int;
                assert(e * c + c == (e + 1) * c) by (nonlinear_arith);
                assert((e + 1) * c <= n0 * c) by (nonlinear_arith)
                    requires
                        e + 1 <= n0,
                        c >= 0,
                ;
                assert(0 <= e * c) by (nonlinear_arith)
                    requires
                        e >= 0,
                        c >= 0,
                ;
                assert(n * c == n0 * c - c) by (nonlinear_arith)
                    requires
                        n == n0 - 1,
                ;
                assert forall|k: int| 0 <= k < st[i].1.items().len() implies (#[trigger] st[i].1.items()[k]).class_name@
                    == st[i].0 by {
                    if k < e * c {
                        assert(st[i].1.items()[k] == old_st[i].1.items()[k]);
                    } else {
                        assert(st[i].1.items()[k] == old_st[i].1.items()[k + c]);
                    }
                }
            }
        }
        proof {
            let st = self.storages();
            assert forall|i: int| 0 <= i < old_st.len() implies (#[trigger] st[i]).1.per_entity()
                == old_st[i].1.per_entity() && old_st[i].1.items().len() == n0
                * old_st[i].1.per_entity() && st[i].1.items() == old_st[i].1.items().subrange(
                0,
                index * old_st[i].1.per_entity(),
            ) + old_st[i].1.items().subrange(
                (index + 1) * old_st[i].1.per_entity(),
                old_st[i].1.items().len() as int,
            ) by {
                assert(old_st[i].1.items().len() == n0 * old_st[i].1.per_entity());
            }
            lemma_remove_blocks(old_st, st, n0 as int, index as int);
        }
        (EntityProperties { entity_id, name, enabled }, components)
    }

    /// The component at `index` in the storage of class `key`.
    pub open spec fn component_at(&self, key: Seq<char>, index: int) -> AnyComponent {
        assoc_map(storage_contents(self.storages()))[key][index]
    }

    /// `self` is `before` where the component at `index` in the storage of
    /// class `key` was replaced by `component`, and nothing else changed.
    pub open spec fn component_replaced(
        &self,
        before: Archetype,
        key: Seq<char>,
        index: int,
        component: AnyComponent,
    ) -> bool {
        &&& self.entity_ids() == before.entity_ids()
        &&& self.names() == before.names()
        &&& self.enabled_flags() == before.enabled_flags()
        &&& self.type_names() == before.type_names()
        &&& self.layout() == before.layout()
        &&& assoc_keys(self.storages()) == assoc_keys(before.storages())
        &&& assoc_map(storage_contents(self.storages())) == assoc_map(
            storage_contents(before.storages()),
        ).insert(key, assoc_map(storage_contents(before.storages()))[key].update(index, component))
    }

    /// The archetype has a storage of class `key` with a component at
    /// `index`.
    pub open spec fn has_component(&self, key: Seq<char>, index: int) -> bool {
        &&& assoc_keys(self.storages()).contains(key)
        &&& 0 <= index < assoc_map(storage_contents(self.storages()))[key].len()
    }

    /// The places that `slots_of` gives for an entity hold its components,
    /// in order.
    pub proof fn lemma_slots_hold_components(&self, e: int)
        requires
            self.wf(),
            0 <= e < self.entity_count(),
        ensures
            slots_of(self.storages(), e).len() == self.entity_components(e).len(),
            forall|i: int|
                0 <= i < slots_of(self.storages(), e).len() ==> self.has_component(
                    #[trigger] slots_of(self.storages(), e)[i].0,
                    slots_of(self.storages(), e)[i].1,
                ) && self.component_at(slots_of(self.storages(), e)[i].0, slots_of(self.storages(), e)[i].1)
                    == self.entity_components(e)[i],
    {
        let st = self.storages();
        let m = assoc_map(storage_contents(st));
        assert(assoc_keys(storage_contents(st)) =~= assoc_keys(st));
        lemma_assoc_map_sorted(storage_contents(st));
        assert forall|j: int| 0 <= j < st.len() implies #[trigger] m[st[j].0] == st[j].1.items()
            && m.contains_key(st[j].0) && 0 <= e * st[j].1.per_entity() && (e + 1)
            * st[j].1.per_entity() <= st[j].1.items().len() by {
            assert(storage_contents(st)[j].0 == st[j].0);
            assert(assoc_keys(storage_contents(st))[j] == st[j].0);
            let c = st[j].1.per_entity() as int;
            let n = self.entity_count() as int;
            assert(0 <= e * c) by (nonlinear_arith)
                requires
                    0 <= e,
                    0 <= c,
            ;
            assert((e + 1) * c <= n * c) by (nonlinear_arith)
                requires
                    e + 1 <= n,
                    0 <= c,
            ;
        }
        lemma_slots_read(st, e, m);
        assert forall|i: int| 0 <= i < slots_of(st, e).len() implies self.has_component(
            #[trigger] slots_of(st, e)[i].0,
            slots_of(st, e)[i].1,
        ) by {
            let j = choose|j: int| 0 <= j < st.len() && st[j].0 == slots_of(st, e)[i].0;
            assert(assoc_keys(st)[j] == st[j].0);
            assert(assoc_keys(st).contains(slots_of(st, e)[i].0));
        }
    }

    /// A reference to the entity at `entity_id`.
    pub fn get(&self, entity_id: usize) -> (res: EntityReference<'_>)
        ensures
            res.entity_id == entity_id,
            res.archetype == self,
    {
        EntityReference { entity_id, archetype: self }
    }

    /// Returns the storage of class `component_type_identifier`, if any.
    pub fn get_storage_from_type(&self, component_type_identifier: &str) -> (res: Option<
        &ComponentStorage,
    >)
        requires
            self.wf(),
        ensures
            assoc_keys(self.storages()).contains(component_type_identifier@) ==> (res matches Some(
                storage,
            ) && assoc_map(storage_layout(self.storages()))[component_type_identifier@]
                == storage.per_entity() && assoc_map(storage_contents(self.storages()))[component_type_identifier@]
                == storage.items()),
            !assoc_keys(self.storages()).contains(component_type_identifier@) ==> res is None,
    {
        match self.find_storage(component_type_identifier) {
            Some(j) => {
                proof {
                    self.lemma_storage_maps(j as int);
                    assert(assoc_keys(self.storages())[j as int] == component_type_identifier@);
                }
                Some(&self.component_storages[j].1)
            },
            None => None,
        }
    }

    /// In the maps of an archetype, the class of storage `j` leads to it.
    proof fn lemma_storage_maps(&self, j: int)
        requires
            self.wf(),
            0 <= j < self.storages().len(),
        ensures
            assoc_map(storage_layout(self.storages()))[self.storages()[j].0]
                == self.storages()[j].1.per_entity(),
            assoc_map(storage_contents(self.storages()))[self.storages()[j].0]
                == self.storages()[j].1.items(),
            assoc_map(storage_contents(self.storages())).contains_key(self.storages()[j].0),
    {
        let st = self.storages();
        assert(assoc_keys(storage_layout(st)) =~= assoc_keys(st));
        assert(assoc_keys(storage_contents(st)) =~= assoc_keys(st));
        lemma_assoc_map_sorted(storage_layout(st));
        lemma_assoc_map_sorted(storage_contents(st));
        assert(storage_layout(st)[j].0 == st[j].0);
        assert(storage_contents(st)[j].0 == st[j].0);
        assert(assoc_keys(storage_contents(st))[j] == st[j].0);
    }

    /// Returns the component at `index` in the storage of class `class_name`.
    pub fn get_component(&self, class_name: &str, index: usize) -> (res: Option<&AnyComponent>)
        requires
            self.wf(),
        ensures
            (assoc_keys(self.storages()).contains(class_name@) && index < assoc_map(
                storage_contents(self.storages()),
            )[class_name@].len()) ==> (res matches Some(c) && *c == self.component_at(
                class_name@,
                index as int,
            )),
            !(assoc_keys(self.storages()).contains(class_name@) && index < assoc_map(
                storage_contents(self.storages()),
            )[class_name@].len()) ==> res is None,
    {
        match self.get_storage_from_type(class_name) {
            Some(storage) => storage.get(index),
            None => None,
        }
    }

    /// Returns references to the components of entity `entity_id`, storage
    /// after storage in name order.
    pub fn get_entity_components(&self, entity_id: usize) -> (res: Vec<ComponentReference<'_>>)
        requires
            self.wf(),
            entity_id < self.entity_count(),
        ensures
            res@.len() == slots_of(self.storages(), entity_id as int).len(),
            forall|i: int|
                0 <= i < res@.len() ==> (#[trigger] res@[i]).entity.entity_id == entity_id
                    && res@[i].entity.archetype == self && (res@[i].component_identifier@,
                res@[i].component_index as int) == slots_of(self.storages(), entity_id as int)[i],
    {
        let mut res: Vec<ComponentReference<'_>> = Vec::new();
        let ghost st = self.storages();
        let count = self.component_storages.len();
        let mut j: usize = 0;
        assert(st.take(0) =~= Seq::<(Seq<char>, ComponentStorage)>::empty());
        while j < count
            invariant
                self.wf(),
                st == self.storages(),
                count == st.len(),
                j <= count,
                entity_id < self.entity_count(),
                res@.len() == slots_of(st.take(j as int), entity_id as int).len(),
                forall|i: int|
                    0 <= i < res@.len() ==> (#[trigger] res@[i]).entity.entity_id == entity_id
                        && res@[i].entity.archetype == self && (res@[i].component_identifier@,
                    res@[i].component_index as int) == slots_of(st.take(j as int), entity_id as int)[i],
            decreases count - j,
        {
            let per_entity = self.component_storages[j].1.get_components_per_entity();
            let total = self.component_storages[j].1.len();
            let ghost c = per_entity as int;
            let ghost key = st[j as int].0;
            proof {
                assert(st[j as int].1 == self.component_storages@[j as int].1);
                let e = entity_id as int;
                let n = self.entity_count() as int;
                assert((e + 1) * c <= n * c) by (nonlinear_arith)
                    requires
                        e + 1 <= n,
                        c >= 0,
                ;
                assert(e * c + c == (e + 1) * c) by (nonlinear_arith);
                assert(st[j as int].1.items().len() == n * c);
            }
            let start = entity_id * per_entity;
            let ghost before = res@;
            let mut k: usize = 0;
            while k < per_entity
                invariant
                    k <= per_entity,
                    start == entity_id * c,
                    c == per_entity,
                    start + c <= usize::MAX,
                    j < self.component_storages@.len(),
                    key == self.component_storages@[j as int].0@,
                    res@.len() == before.len() + k,
                    forall|i: int| 0 <= i < before.len() ==> res@[i] == before[i],
                    forall|i: int|
                        0 <= i < k ==> (#[trigger] res@[before.len() + i]).entity.entity_id
                            == entity_id && res@[before.len() + i].entity.archetype == self && (
                        res@[before.len() + i].component_identifier@,
                        res@[before.len() + i].component_index as int,
                    ) == (key, start + i),
                decreases per_entity - k,
            {
                res.push(
                    ComponentReference {
                        entity: EntityReference { entity_id, archetype: self },
                        component_identifier: self.component_storages[j].0.clone(),
                        component_index: start + k,
                    },
                );
                k = k + 1;
            }
            proof {
                assert(st.take(j + 1).drop_last() =~= st.take(j as int));
                assert(st.take(j + 1).last() == st[j as int]);
                let new_slots = slots_of(st.take(j + 1), entity_id as int);
                assert(new_slots =~= slots_of(st.take(j as int), entity_id as int) + storage_slots(
                    key,
                    c as nat,
                    entity_id as int,
                ));
                assert forall|i: int| 0 <= i < res@.len() implies (#[trigger] res@[i]).entity.entity_id
                    == entity_id && res@[i].entity.archetype == self && (res@[i].component_identifier@,
                res@[i].component_index as int) == new_slots[i] by {
                    let prev = slots_of(st.take(j as int), entity_id as int);
                    if i >= before.len() {
                        let k = i - before.len();
                        assert(res@[before.len() + k] == res@[i]);
                        assert(new_slots[i] == storage_slots(key, c as nat, entity_id as int)[k]);
                    } else {
                        assert(res@[i] == before[i]);
                        assert(new_slots[i] == prev[i]);
                    }
                }
            }
            j = j + 1;
        }
        assert(st.take(count as int) =~= st);
        res
    }

    /// Returns references to the components of class `component_type_identifier`
    /// of entity `entity_id`; none when the archetype has no such class.
    pub fn get_entity_components_from_type(&self, entity_id: usize, component_type_identifier: &str) -> (res:
        Vec<ComponentReference<'_>>)
        requires
            self.wf(),
            entity_id < self.entity_count(),
        ensures
            !assoc_keys(self.storages()).contains(component_type_identifier@) ==> res@.len() == 0,
            assoc_keys(self.storages()).contains(component_type_identifier@) ==> res@.len()
                == assoc_map(storage_layout(self.storages()))[component_type_identifier@],
            forall|i: int|
                0 <= i < res@.len() ==> (#[trigger] res@[i]).entity.entity_id == entity_id
                    && res@[i].entity.archetype == self && (res@[i].component_identifier@,
                res@[i].component_index as int) == storage_slots(
                    component_type_identifier@,
                    assoc_map(storage_layout(self.storages()))[component_type_identifier@],
                    entity_id as int,
                )[i],
    {
        let mut res: Vec<ComponentReference<'_>> = Vec::new();
        match self.find_storage(component_type_identifier) {
            None => res,
            Some(j) => {
                let per_entity = self.component_storages[j].1.get_components_per_entity();
                let total = self.component_storages[j].1.len();
                let ghost c = per_entity as int;
                proof {
                    self.lemma_storage_maps(j as int);
                    let st = self.storages();
                    assert(st[j as int].1 == self.component_storages@[j as int].1);
                    let e = entity_id as int;
                    let n = self.entity_count() as int;
                    assert((e + 1) * c <= n * c) by (nonlinear_arith)
                        requires
                            e + 1 <= n,
                            c >= 0,
                    ;
                    assert(e * c + c == (e + 1) * c) by (nonlinear_arith);
                    assert(st[j as int].1.items().len() == n * c);
                }
                let start = entity_id * per_entity;
                let mut k: usize = 0;
                while k < per_entity
                    invariant
                        k <= per_entity,
                        start == entity_id * c,
                        c == per_entity,
                        start + c <= usize::MAX,
                        j < self.component_storages@.len(),
                        component_type_identifier@ == self.component_storages@[j as int].0@,
                        res@.len() == k,
                        forall|i: int|
                            0 <= i < k ==> (#[trigger] res@[i]).entity.entity_id == entity_id
                                && res@[i].entity.archetype == self && (
                            res@[i].component_identifier@,
                            res@[i].component_index as int,
                        ) == (component_type_identifier@, start + i),
                    decreases per_entity - k,
                {
                    res.push(
                        ComponentReference {
                            entity: EntityReference { entity_id, archetype: self },
                            component_identifier: self.component_storages[j].0.clone(),
                            component_index: start + k,
                        },
                    );
                    k = k + 1;
                }
                proof {
                    assert(assoc_keys(self.storages())[j as int] == component_type_identifier@);
                }
                res
            },
        }
    }

    /// Returns references to the enabled entities, in order.
    pub fn iter(&self) -> (res: Vec<EntityReference<'_>>)
        requires
            self.wf(),
        ensures
            res@.len() == enabled_indices(self.enabled_flags()).len(),
            forall|i: int|
                0 <= i < res@.len() ==> (#[trigger] res@[i]).archetype == self && res@[i].entity_id
                    == enabled_indices(self.enabled_flags())[i],
            forall|i: int|
                0 <= i < res@.len() ==> (#[trigger] res@[i]).entity_id < self.entity_count()
                    && self.enabled_flags()[res@[i].entity_id as int],
            forall|i: int, j: int|
                0 <= i < j < res@.len() ==> (#[trigger] res@[i]).entity_id < (
                #[trigger] res@[j]).entity_id,
            forall|k: int|
                0 <= k < self.entity_count() && #[trigger] self.enabled_flags()[k] ==> exists|i: int|
                    0 <= i < res@.len() && res@[i].entity_id == k,
    {
        let mut res: Vec<EntityReference<'_>> = Vec::new();
        let n = self.enabled_array.len();
        let ghost flags = self.enabled_flags();
        let mut i: usize = 0;
        assert(flags.take(0) =~= Seq::<bool>::empty());
        while i < n
            invariant
                n == flags.len(),
                flags == self.enabled_flags(),
                i <= n,
                res@.len() == enabled_indices(flags.take(i as int)).len(),
                forall|m: int|
                    0 <= m < res@.len() ==> (#[trigger] res@[m]).archetype == self && res@[m].entity_id
                        == enabled_indices(flags.take(i as int))[m],
            decreases n - i,
        {
            proof {
                assert(flags.take(i + 1).drop_last() =~= flags.take(i as int));
                assert(flags.take(i + 1).last() == flags[i as int]);
            }
            if self.enabled_array[i] {
                res.push(EntityReference { entity_id: i, archetype: self });
            }
            i = i + 1;
        }
        assert(flags.take(n as int) =~= flags);
        proof {
            lemma_enabled_indices(flags);
            assert forall|k: int| 0 <= k < self.entity_count() && #[trigger] self.enabled_flags()[k]
                implies exists|i: int| 0 <= i < res@.len() && res@[i].entity_id == k by {
                lemma_enabled_index_listed(flags, k);
                let i = choose|i: int|
                    0 <= i < enabled_indices(flags).len() && enabled_indices(flags)[i] == k;
                assert(res@[i].entity_id == enabled_indices(flags)[i]);
            }
        }
        res
    }
}

/// A reference to an entity of an archetype: its position there.
#[derive(Clone, Copy)]
pub struct EntityReference<'a> {
    pub entity_id: usize,
    pub archetype: &'a Archetype,
}

/// A reference to a component of an entity: the class of the storage that
/// holds it and its position in that storage.
pub struct ComponentReference<'a> {
    pub entity: EntityReference<'a>,
    pub component_identifier: String,
    pub component_index: usize,
}

impl<'a> Clone for ComponentReference<'a> {
    fn clone(&self) -> (res: Self)
        ensures
            res.entity == self.entity,
            res.component_identifier@ == self.component_identifier@,
            res.component_index == self.component_index,
    {
        ComponentReference {
            entity: self.entity,
            component_identifier: self.component_identifier.clone(),
            component_index: self.component_index,
        }
    }
}

/// Each enabled position is the position of a set flag, and they increase.
pub proof fn lemma_enabled_indices(flags: Seq<bool>)
    ensures
        forall|i: int|
            0 <= i < enabled_indices(flags).len() ==> 0 <= #[trigger] enabled_indices(flags)[i]
                < flags.len() && flags[enabled_indices(flags)[i]],
        forall|i: int, j: int|
            0 <= i < j < enabled_indices(flags).len() ==> #[trigger] enabled_indices(flags)[i]
                < #[trigger] enabled_indices(flags)[j],
    decreases flags.len(),
{
    if flags.len() > 0 {
        let rest = flags.drop_last();
        lemma_enabled_indices(rest);
        let prev = enabled_indices(rest);
        let all = enabled_indices(flags);
        assert forall|i: int, j: int| 0 <= i < j < all.len() implies #[trigger] all[i]
            < #[trigger] all[j] by {
            assert(all[i] == prev[i]);
            if j < prev.len() {
                assert(all[j] == prev[j]);
            }
        }
        assert forall|i: int| 0 <= i < enabled_indices(flags).len() implies 0
            <= #[trigger] enabled_indices(flags)[i] < flags.len() && flags[enabled_indices(
            flags,
        )[i]] by {
            if i < enabled_indices(rest).len() {
                assert(enabled_indices(flags)[i] == enabled_indices(rest)[i]);
                assert(rest[enabled_indices(rest)[i]] == flags[enabled_indices(rest)[i]]);
            }
        }
    }
}




/// Replacing one component leaves that component as written, and every
/// other component, id, name and enabled flag as it was.
pub proof fn lemma_replaced_only_that_component(
    before: Archetype,
    after: Archetype,
    key: Seq<char>,
    index: int,
    component: AnyComponent,
    other_key: Seq<char>,
    other_index: int,
)
    requires
        before.has_component(key, index),
        after.component_replaced(before, key, index, component),
    ensures
        after.has_component(key, index),
        after.component_at(key, index) == component,
        after.entity_ids() == before.entity_ids(),
        after.names() == before.names(),
        after.enabled_flags() == before.enabled_flags(),
        (other_key != key || other_index != index) && before.has_component(other_key, other_index)
            ==> after.has_component(other_key, other_index) && after.component_at(
            other_key,
            other_index,
        ) == before.component_at(other_key, other_index),
{
}

/// Whether a place is one of the storage of class `key`.
pub open spec fn of_class(key: Seq<char>) -> spec_fn((Seq<char>, int)) -> bool {
    |s: (Seq<char>, int)| s.0 == key
}

/// Keeping the places of one class keeps all of a sequence whose places are
/// all of that class, and none of one whose places are all of another.
proof fn lemma_filter_of_class_all_or_none(places: Seq<(Seq<char>, int)>, key: Seq<char>)
    ensures
        (forall|i: int| 0 <= i < places.len() ==> (#[trigger] places[i]).0 == key) ==> places.filter(
            of_class(key),
        ) == places,
        (forall|i: int| 0 <= i < places.len() ==> (#[trigger] places[i]).0 != key) ==> places.filter(
            of_class(key),
        ) == Seq::<(Seq<char>, int)>::empty(),
    decreases places.len(),
{
    reveal(Seq::filter);
    if places.len() > 0 {
        let rest = places.drop_last();
        lemma_filter_of_class_all_or_none(rest, key);
        if forall|i: int| 0 <= i < places.len() ==> (#[trigger] places[i]).0 == key {
            assert(forall|i: int| 0 <= i < rest.len() ==> (#[trigger] rest[i]).0 == key) by {
                assert forall|i: int| 0 <= i < rest.len() implies (#[trigger] rest[i]).0 == key by {
                    assert(rest[i] == places[i]);
                }
            }
            assert(places[places.len() - 1].0 == key);
            assert(rest.push(places.last()) =~= places);
        }
        if forall|i: int| 0 <= i < places.len() ==> (#[trigger] places[i]).0 != key {
            assert(forall|i: int| 0 <= i < rest.len() ==> (#[trigger] rest[i]).0 != key) by {
                assert forall|i: int| 0 <= i < rest.len() implies (#[trigger] rest[i]).0 != key by {
                    assert(rest[i] == places[i]);
                }
            }
            assert(places[places.len() - 1].0 != key);
        }
    }
}

/// Of the places of the components of entity `e`, those of class `key` are
/// the places of the storage of that class, in order; there are none when
/// no storage has that class.
pub proof fn lemma_slots_of_class(storages: Seq<(Seq<char>, ComponentStorage)>, e: int, key: Seq<char>)
    requires
        keys_sorted(assoc_keys(storages)),
    ensures
        slots_of(storages, e).filter(of_class(key)) == (if assoc_keys(storages).contains(key) {
            storage_slots(key, assoc_map(storage_layout(storages))[key], e)
        } else {
            Seq::<(Seq<char>, int)>::empty()
        }),
    decreases storages.len(),
{
    reveal(Seq::filter);
    if storages.len() > 0 {
        let rest = storages.drop_last();
        let n = storages.len() - 1;
        let last = storages[n];
        assert(assoc_keys(rest) =~= assoc_keys(storages).drop_last());
        lemma_slots_of_class(rest, e, key);
        let tail = storage_slots(last.0, last.1.per_entity(), e);
        Seq::filter_distributes_over_add(slots_of(rest, e), tail, of_class(key));
        lemma_filter_of_class_all_or_none(tail, key);
        assert(storage_layout(storages).drop_last() =~= storage_layout(rest));
        assert(storage_layout(storages).last() == (last.0, last.1.per_entity()));
        assert(assoc_map(storage_layout(storages)) == assoc_map(storage_layout(rest)).insert(
            last.0,
            last.1.per_entity(),
        ));
        assert(assoc_keys(storages)[n] == last.0);
        if last.0 == key {
            assert(forall|i: int| 0 <= i < tail.len() ==> (#[trigger] tail[i]).0 == key);
            if assoc_keys(rest).contains(key) {
                let i = choose|i: int| 0 <= i < assoc_keys(rest).len() && assoc_keys(rest)[i] == key;
                assert(assoc_keys(storages)[i] == key);
                assert(name_less(assoc_keys(storages)[i], assoc_keys(storages)[n]));
                lemma_name_less_irreflexive(key);
            }
            assert(assoc_keys(storages).contains(key));
            assert(slots_of(rest, e).filter(of_class(key)) + tail =~= tail);
        } else {
            assert(forall|i: int| 0 <= i < tail.len() ==> (#[trigger] tail[i]).0 != key);
            assert(assoc_keys(storages).contains(key) == assoc_keys(rest).contains(key)) by {
                if assoc_keys(storages).contains(key) {
                    let i = choose|i: int|
                        0 <= i < assoc_keys(storages).len() && assoc_keys(storages)[i] == key;
                    assert(i != n);
                    assert(assoc_keys(rest)[i] == key);
                }
                if assoc_keys(rest).contains(key) {
                    let i = choose|i: int| 0 <= i < assoc_keys(rest).len() && assoc_keys(rest)[i] == key;
                    assert(assoc_keys(storages)[i] == key);
                }
            }
            assert(slots_of(rest, e).filter(of_class(key)) + Seq::<(Seq<char>, int)>::empty()
                =~= slots_of(rest, e).filter(of_class(key)));
        }
    }
}

/// Adding and removing entities never changes the class names of an
/// archetype: along states of an archetype where each next state keeps the
/// class names of the one before (as `add` and `remove` ensure), every state
/// has the class names of the first, the identifier it was made with.
pub proof fn lemma_class_names_kept(states: Seq<Archetype>)
    requires
        forall|i: int|
            0 <= i < states.len() - 1 ==> (#[trigger] states[i + 1]).type_names()
                == states[i].type_names(),
    ensures
        forall|i: int| 0 <= i < states.len() ==> (#[trigger] states[i]).type_names() == states[0].type_names(),
    decreases states.len(),
{
    if states.len() > 1 {
        let rest = states.drop_last();
        assert forall|i: int| 0 <= i < rest.len() - 1 implies (#[trigger] rest[i + 1]).type_names()
            == rest[i].type_names() by {
            assert(rest[i + 1] == states[i + 1]);
            assert(rest[i] == states[i]);
        }
        lemma_class_names_kept(rest);
        assert forall|i: int| 0 <= i < states.len() implies (#[trigger] states[i]).type_names()
            == states[0].type_names() by {
            if i < rest.len() {
                assert(rest[i] == states[i]);
            } else {
                let j = i - 1;
                assert(states[j + 1].type_names() == states[j].type_names());
                assert(rest[j] == states[j]);
            }
        }
    }
}

/// The class names of components in class-name order are in name order.
proof fn lemma_class_names_ordered(s: Seq<AnyComponent>)
    requires
        names_ordered(s),
    ensures
        forall|i: int, j: int|
            0 <= i < j < class_names(s).len() ==> name_le(
                #[trigger] class_names(s)[i],
                #[trigger] class_names(s)[j],
            ),
{
    assert forall|i: int, j: int| 0 <= i < j < class_names(s).len() implies name_le(
        #[trigger] class_names(s)[i],
        #[trigger] class_names(s)[j],
    ) by {
        assert(class_names(s)[i] == s[i].class_name@);
        assert(class_names(s)[j] == s[j].class_name@);
    }
}

/// The position of a set flag is among the enabled positions.
proof fn lemma_enabled_index_listed(flags: Seq<bool>, k: int)
    requires
        0 <= k < flags.len(),
        flags[k],
    ensures
        enabled_indices(flags).contains(k),
    decreases flags.len(),
{
    let rest = flags.drop_last();
    let n = flags.len() - 1;
    if k < n {
        assert(rest[k] == flags[k]);
        lemma_enabled_index_listed(rest, k);
        let i = choose|i: int| 0 <= i < enabled_indices(rest).len() && enabled_indices(rest)[i] == k;
        if flags.last() {
            assert(enabled_indices(flags)[i] == enabled_indices(rest)[i]);
        }
    } else {
        assert(flags.last() == flags[k]);
        assert(enabled_indices(flags)[enabled_indices(rest).len() as int] == k);
    }
}

/// The enabled positions are exactly the positions whose flag is set: every
/// set flag has its position among them, and each of them is the position of
/// a set flag; they increase, so each comes once.
pub proof fn lemma_enabled_indices_exact(flags: Seq<bool>, k: int)
    requires
        0 <= k < flags.len(),
    ensures
        enabled_indices(flags).contains(k) <==> flags[k],
        forall|i: int, j: int|
            0 <= i < j < enabled_indices(flags).len() ==> #[trigger] enabled_indices(flags)[i]
                < #[trigger] enabled_indices(flags)[j],
{
    lemma_enabled_indices(flags);
    if flags[k] {
        lemma_enabled_index_listed(flags, k);
    }
}

} // verus!
