use crate::archetype::{
    enabled_indices,
    lemma_enabled_indices,
    storage_layout,
    storage_slots,
    Archetype,
    ComponentReference,
    EntityReference,
};
use crate::component::EntityId;
use crate::grouping::{assoc_keys, assoc_map, lemma_assoc_map_sorted, lemma_name_count_positive};
use crate::rwlock::{
    cartesian,
    lemma_product_members,
    lemma_vec_views_push,
    multi_cartesian_product,
    vec_views,
};
use crate::system_service::all_positions;
use vstd::prelude::*;

verus! {

/// A value handed to a query callback.
pub enum QueryValue<'a> {
    Entity(EntityReference<'a>),
    Id(EntityId),
    Name(String),
    Enabled(bool),
    Component(ComponentReference<'a>),
    Null,
}

/// What a query value says: the archetype and position of an entity, its
/// id, name or enabled flag, or the archetype and place of a component.
pub enum ValueView {
    Entity(Archetype, usize),
    Id(EntityId),
    Name(Seq<char>),
    Enabled(bool),
    Component(Archetype, Seq<char>, usize),
    Null,
}

impl<'a> View for QueryValue<'a> {
    type V = ValueView;

    open spec fn view(&self) -> ValueView {
        match self {
            QueryValue::Entity(e) => ValueView::Entity(*e.archetype, e.entity_id),
            QueryValue::Id(id) => ValueView::Id(*id),
            QueryValue::Name(name) => ValueView::Name(name@),
            QueryValue::Enabled(enabled) => ValueView::Enabled(*enabled),
            QueryValue::Component(c) => ValueView::Component(
                *c.entity.archetype,
                c.component_identifier@,
                c.component_index,
            ),
            QueryValue::Null => ValueView::Null,
        }
    }
}

impl<'a> Clone for QueryValue<'a> {
    fn clone(&self) -> (res: Self)
        ensures
            res@ == self@,
    {
        match self {
            QueryValue::Entity(e) => QueryValue::Entity(*e),
            QueryValue::Id(id) => QueryValue::Id(*id),
            QueryValue::Name(name) => QueryValue::Name(name.clone()),
            QueryValue::Enabled(enabled) => QueryValue::Enabled(*enabled),
            QueryValue::Component(c) => QueryValue::Component(c.clone()),
            QueryValue::Null => QueryValue::Null,
        }
    }
}

/// The entity reference
pub struct WithEntity {}

/// The entity id
pub struct WithId {}

/// The entity name
pub struct WithName {}

/// Is entity enabled
pub struct WithEnabled {}

/// The components of a class; only the archetypes that have the class
/// take part in the query
pub struct With {
    pub identifier: String,
}

/// The components of a class, or a single null value when the entity has
/// none
pub struct WithOptional {
    pub identifier: String,
}

/// A parameter of a query.
pub enum SerializedQueryParam {
    WithEntity(WithEntity),
    WithId(WithId),
    WithName(WithName),
    WithEnabled(WithEnabled),
    With(With),
    WithOptional(WithOptional),
}

/// The components of class `key` of entity `e`, as query values.
pub open spec fn component_values(arch: Archetype, key: Seq<char>, e: int) -> Seq<ValueView> {
    if assoc_keys(arch.storages()).contains(key) {
        storage_slots(key, assoc_map(storage_layout(arch.storages()))[key], e).map_values(
            |s: (Seq<char>, int)| ValueView::Component(arch, s.0, s.1 as usize),
        )
    } else {
        Seq::empty()
    }
}

impl SerializedQueryParam {
    /// Whether entities of `arch` take part in a query with this parameter.
    pub open spec fn keeps(self, arch: Archetype) -> bool {
        match self {
            SerializedQueryParam::With(w) => arch.type_names().contains(w.identifier@),
            _ => true,
        }
    }

    /// The values this parameter gives for entity `e` of `arch`.
    pub open spec fn values(self, arch: Archetype, e: int) -> Seq<ValueView> {
        match self {
            SerializedQueryParam::WithEntity(_) => seq![ValueView::Entity(arch, e as usize)],
            SerializedQueryParam::WithId(_) => seq![ValueView::Id(arch.entity_ids()[e])],
            SerializedQueryParam::WithName(_) => seq![ValueView::Name(arch.names()[e])],
            SerializedQueryParam::WithEnabled(_) => seq![ValueView::Enabled(arch.enabled_flags()[e])],
            SerializedQueryParam::With(w) => component_values(arch, w.identifier@, e),
            SerializedQueryParam::WithOptional(w) => if component_values(
                arch,
                w.identifier@,
                e,
            ).len() > 0 {
                component_values(arch, w.identifier@, e)
            } else {
                seq![ValueView::Null]
            },
        }
    }

    /// Returns whether entities of `archetype` take part in the query.
    pub fn filter_archetype(&self, archetype: &Archetype) -> (keep: bool)
        ensures
            keep == self.keeps(*archetype),
    {
        match self {
            SerializedQueryParam::With(w) => archetype.get_type_identifier().contains(
                w.identifier.as_str(),
            ),
            _ => true,
        }
    }

    /// Returns the values this parameter gives for an entity.
    pub fn get_entity_components<'a>(&self, entity: EntityReference<'a>) -> (res: Vec<
        QueryValue<'a>,
    >)
        requires
            entity.archetype.wf(),
            entity.entity_id < entity.archetype.entity_count(),
        ensures
            value_views(res@) == self.values(
                *entity.archetype,
                entity.entity_id as int,
            ),
    {
        let archetype: &'a Archetype = entity.archetype;
        proof {
            archetype.lemma_layout();
        }
        let mut res: Vec<QueryValue<'a>> = Vec::new();
        match self {
            SerializedQueryParam::WithEntity(_) => {
                res.push(QueryValue::Entity(entity));
            },
            SerializedQueryParam::WithId(_) => {
                res.push(QueryValue::Id(archetype.get_entity_id(entity.entity_id)));
            },
            SerializedQueryParam::WithName(_) => {
                res.push(QueryValue::Name(archetype.get_name(entity.entity_id)));
            },
            SerializedQueryParam::WithEnabled(_) => {
                res.push(QueryValue::Enabled(archetype.is_enabled(entity.entity_id)));
            },
            SerializedQueryParam::With(w) => {
                res = component_values_of(entity, w.identifier.as_str());
            },
            SerializedQueryParam::WithOptional(w) => {
                res = component_values_of(entity, w.identifier.as_str());
                if res.len() == 0 {
                    res.push(QueryValue::Null);
                }
            },
        }
        assert(value_views(res@) =~= self.values(
            *entity.archetype,
            entity.entity_id as int,
        ));
        res
    }
}

/// The components of class `identifier` of an entity, as query values.
fn component_values_of<'a>(entity: EntityReference<'a>, identifier: &str) -> (res: Vec<QueryValue<'a>>)
    requires
        entity.archetype.wf(),
        entity.entity_id < entity.archetype.entity_count(),
    ensures
        value_views(res@) == component_values(
            *entity.archetype,
            identifier@,
            entity.entity_id as int,
        ),
{
    let references = entity.get_components_by_type_identifier(identifier);
    let ghost expected = component_values(*entity.archetype, identifier@, entity.entity_id as int);
    let mut res: Vec<QueryValue<'a>> = Vec::new();
    let mut references = references;
    let ghost all = references@;
    let ghost mut done: int = 0;
    while references.len() > 0
        invariant
            0 <= done <= all.len(),
            references@ == all.skip(done),
            res@.len() == done,
            forall|i: int|
                0 <= i < done ==> (#[trigger] res@[i])@ == ValueView::Component(
                    *all[i].entity.archetype,
                    all[i].component_identifier@,
                    all[i].component_index,
                ),
        decreases references@.len(),
    {
        let reference = references.remove(0);
        proof {
            assert(reference == all[done]);
            assert(references@ =~= all.skip(done + 1));
            done = done + 1;
        }
        res.push(QueryValue::Component(reference));
    }
    proof {
        let slots = storage_slots(
            identifier@,
            assoc_map(storage_layout(entity.archetype.storages()))[identifier@],
            entity.entity_id as int,
        );
        if assoc_keys(entity.archetype.storages()).contains(identifier@) {
            assert(value_views(res@) =~= expected) by {
                assert forall|i: int| 0 <= i < res@.len() implies #[trigger] value_views(res@)[i] == expected[i] by {
                    assert((all[i].component_identifier@, all[i].component_index as int)
                        == slots[i]);
                }
            }
        } else {
            assert(value_views(res@) =~= expected);
        }
    }
    res
}

/// For each combination of positions, the values at those positions of
/// the lists.
pub open spec fn rows_at(lists: Seq<Seq<ValueView>>, combinations: Seq<Seq<usize>>) -> Seq<
    Seq<ValueView>,
> {
    combinations.map_values(
        |c: Seq<usize>| Seq::new(c.len(), |i: int| lists[i][c[i] as int]),
    )
}

/// The rows a query gives for one entity: every way to pick one value of
/// each parameter, in order, the last parameter varying fastest.
pub open spec fn entity_rows(params: Seq<SerializedQueryParam>, arch: Archetype, e: int) -> Seq<
    Seq<ValueView>,
> {
    let lists = params.map_values(|p: SerializedQueryParam| p.values(arch, e));
    rows_at(
        lists,
        cartesian(lists.map_values(|l: Seq<ValueView>| all_positions(l.len()))),
    )
}

/// The rows a query gives for the entities at positions `es` of `arch`.
pub open spec fn archetype_rows(params: Seq<SerializedQueryParam>, arch: Archetype, es: Seq<int>) -> Seq<
    Seq<ValueView>,
>
    decreases es.len(),
{
    if es.len() == 0 {
        Seq::empty()
    } else {
        archetype_rows(params, arch, es.drop_last()) + entity_rows(params, arch, es.last())
    }
}

/// Whether every parameter keeps the archetype.
pub open spec fn keeps_all(params: Seq<SerializedQueryParam>, arch: Archetype) -> bool {
    forall|i: int| 0 <= i < params.len() ==> (#[trigger] params[i]).keeps(arch)
}

/// The rows a query gives: archetype after archetype, those that every
/// parameter keeps, enabled entity after enabled entity.
pub open spec fn query_rows(params: Seq<SerializedQueryParam>, archetypes: Seq<Archetype>) -> Seq<
    Seq<ValueView>,
>
    decreases archetypes.len(),
{
    if archetypes.len() == 0 {
        Seq::empty()
    } else {
        let arch = archetypes.last();
        query_rows(params, archetypes.drop_last()) + if keeps_all(params, arch) {
            archetype_rows(params, arch, enabled_indices(arch.enabled_flags()))
        } else {
            Seq::empty()
        }
    }
}

/// The views of values.
pub open spec fn value_views<'a>(values: Seq<QueryValue<'a>>) -> Seq<ValueView> {
    values.map_values(|v: QueryValue<'a>| v@)
}

/// The views of values, one more pushed.
proof fn lemma_value_views_push<'a>(values: Seq<QueryValue<'a>>, v: QueryValue<'a>)
    ensures
        value_views(values.push(v)) == value_views(values).push(v@),
{
    assert(value_views(values.push(v)) =~= value_views(values).push(v@));
}

/// The views of rows, one more pushed.
proof fn lemma_row_views_push<'a>(rows: Seq<Vec<QueryValue<'a>>>, row: Vec<QueryValue<'a>>)
    ensures
        row_views(rows.push(row)) == row_views(rows).push(value_views(row@)),
{
    assert(row_views(rows.push(row)) =~= row_views(rows).push(value_views(row@)));
}

/// The views of rows of values.
pub open spec fn row_views<'a>(rows: Seq<Vec<QueryValue<'a>>>) -> Seq<Seq<ValueView>> {
    rows.map_values(|r: Vec<QueryValue<'a>>| value_views(r@))
}

/// A query over the entities: the parameters say which values each
/// enabled entity gives, and which archetypes take part.
pub struct SerializedQuery {
    pub params: Vec<SerializedQueryParam>,
}

impl SerializedQuery {
    /// Returns a query with no parameter.
    pub fn new() -> (res: SerializedQuery)
        ensures
            res.params@.len() == 0,
    {
        SerializedQuery { params: Vec::new() }
    }

    /// Adds the entity id as a parameter
    pub fn with_id(&mut self)
        ensures
            final(self).params@ == old(self).params@.push(SerializedQueryParam::WithId(WithId {})),
    {
        self.params.push(SerializedQueryParam::WithId(WithId {}));
    }

    /// Adds the entity name as a parameter
    pub fn with_name(&mut self)
        ensures
            final(self).params@ == old(self).params@.push(
                SerializedQueryParam::WithName(WithName {}),
            ),
    {
        self.params.push(SerializedQueryParam::WithName(WithName {}));
    }

    /// Adds the entity enabled flag as a parameter
    pub fn with_enabled(&mut self)
        ensures
            final(self).params@ == old(self).params@.push(
                SerializedQueryParam::WithEnabled(WithEnabled {}),
            ),
    {
        self.params.push(SerializedQueryParam::WithEnabled(WithEnabled {}));
    }

    /// Adds the entity reference as a parameter
    pub fn with_entity(&mut self)
        ensures
            final(self).params@ == old(self).params@.push(
                SerializedQueryParam::WithEntity(WithEntity {}),
            ),
    {
        self.params.push(SerializedQueryParam::WithEntity(WithEntity {}));
    }

    /// Adds the components of a class as a parameter
    pub fn with(&mut self, component_identifier: &str)
        ensures
            final(self).params@.len() == old(self).params@.len() + 1,
            final(self).params@.drop_last() == old(self).params@,
            final(self).params@.last() matches SerializedQueryParam::With(w) && w.identifier@
                == component_identifier@,
    {
        self.params.push(
            SerializedQueryParam::With(With { identifier: component_identifier.to_owned() }),
        );
        assert(self.params@.drop_last() =~= old(self).params@);
    }

    /// Adds the components of a class, if any, as a parameter
    pub fn with_optional(&mut self, component_identifier: &str)
        ensures
            final(self).params@.len() == old(self).params@.len() + 1,
            final(self).params@.drop_last() == old(self).params@,
            final(self).params@.last() matches SerializedQueryParam::WithOptional(w)
                && w.identifier@ == component_identifier@,
    {
        self.params.push(
            SerializedQueryParam::WithOptional(
                WithOptional { identifier: component_identifier.to_owned() },
            ),
        );
        assert(self.params@.drop_last() =~= old(self).params@);
    }

    /// Whether every parameter keeps the archetype.
    fn filter_archetype(&self, archetype: &Archetype) -> (keep: bool)
        ensures
            keep == keeps_all(self.params@, *archetype),
    {
        let n = self.params.len();
        let mut i: usize = 0;
        while i < n
            invariant
                n == self.params@.len(),
                i <= n,
                forall|k: int| 0 <= k < i ==> (#[trigger] self.params@[k]).keeps(*archetype),
            decreases n - i,
        {
            if !self.params[i].filter_archetype(archetype) {
                return false;
            }
            i = i + 1;
        }
        true
    }

    /// The rows for one entity.
    fn entity_rows<'a>(&self, entity: EntityReference<'a>) -> (rows: Vec<Vec<QueryValue<'a>>>)
        requires
            entity.archetype.wf(),
            entity.entity_id < entity.archetype.entity_count(),
        ensures
            row_views(rows@) == entity_rows(self.params@, *entity.archetype, entity.entity_id as int),
    {
        let ghost arch = *entity.archetype;
        let ghost e = entity.entity_id as int;
        let ghost lists = self.params@.map_values(|p: SerializedQueryParam| p.values(arch, e));
        let mut values: Vec<Vec<QueryValue<'a>>> = Vec::new();
        let mut positions: Vec<Vec<usize>> = Vec::new();
        let n = self.params.len();
        let mut i: usize = 0;
        while i < n
            invariant
                n == self.params@.len(),
                i <= n,
                entity.archetype.wf(),
                entity.entity_id < entity.archetype.entity_count(),
                arch == *entity.archetype,
                e == entity.entity_id as int,
                lists == self.params@.map_values(|p: SerializedQueryParam| p.values(arch, e)),
                values@.len() == i,
                forall|k: int|
                    0 <= k < i ==> value_views(#[trigger] values@[k]@)
                        == lists[k],
                vec_views(positions@) == lists.take(i as int).map_values(
                    |l: Seq<ValueView>| all_positions(l.len()),
                ),
            decreases n - i,
        {
            let list = self.params[i].get_entity_components(entity);
            let count = list.len();
            let mut p: Vec<usize> = Vec::new();
            let mut k: usize = 0;
            while k < count
                invariant
                    k <= count,
                    p@ == all_positions(k as nat),
                decreases count - k,
            {
                p.push(k);
                assert(p@ =~= all_positions((k + 1) as nat));
                k = k + 1;
            }
            proof {
                assert(value_views(list@).len() == list@.len());
                assert(lists[i as int] == value_views(list@));
            }
            proof {
                lemma_vec_views_push(positions@, p);
                assert(lists.take(i + 1).map_values(|l: Seq<ValueView>| all_positions(l.len()))
                    =~= lists.take(i as int).map_values(
                    |l: Seq<ValueView>| all_positions(l.len()),
                ).push(all_positions(lists[i as int].len())));
            }
            positions.push(p);
            values.push(list);
            proof {
                assert(vec_views(positions@) =~= lists.take(i + 1).map_values(
                    |l: Seq<ValueView>| all_positions(l.len()),
                ));
            }
            i = i + 1;
        }
        assert(lists.take(n as int) =~= lists);
        let combinations = multi_cartesian_product(&positions);
        let ghost position_lists = lists.map_values(|l: Seq<ValueView>| all_positions(l.len()));
        let ghost combos = cartesian(position_lists);
        proof {
            if position_lists.len() > 0 {
                lemma_product_members(position_lists);
            }
        }
        let mut rows: Vec<Vec<QueryValue<'a>>> = Vec::new();
        let count = combinations.len();
        let mut c: usize = 0;
        while c < count
            invariant
                count == combinations@.len(),
                vec_views(combinations@) == combos,
                combos == cartesian(position_lists),
                position_lists == lists.map_values(|l: Seq<ValueView>| all_positions(l.len())),
                position_lists.len() > 0 ==> forall|q: int|
                    0 <= q < combos.len() ==> (#[trigger] combos[q]).len() == position_lists.len()
                        && forall|j: int|
                        0 <= j < position_lists.len() ==> position_lists[j].contains(
                            #[trigger] combos[q][j],
                        ),
                n == lists.len(),
                values@.len() == n,
                forall|k: int|
                    0 <= k < n ==> value_views(#[trigger] values@[k]@)
                        == lists[k],
                c <= count,
                row_views(rows@) == rows_at(lists, combos.take(c as int)),
            decreases count - c,
        {
            let combination = &combinations[c];
            let ghost combo = combos[c as int];
            proof {
                assert(combination@ == combo);
                assert(position_lists.len() > 0);
            }
            let width = combination.len();
            let mut row: Vec<QueryValue<'a>> = Vec::new();
            let mut j: usize = 0;
            while j < width
                invariant
                    width == combo.len(),
                    combination@ == combo,
                    combo.len() == position_lists.len(),
                    forall|m: int|
                        0 <= m < position_lists.len() ==> position_lists[m].contains(
                            #[trigger] combo[m],
                        ),
                    position_lists == lists.map_values(|l: Seq<ValueView>| all_positions(l.len())),
                    n == lists.len(),
                    values@.len() == n,
                    forall|k: int|
                        0 <= k < n ==> value_views(#[trigger] values@[k]@)
                            == lists[k],
                    j <= width,
                    value_views(row@) == Seq::new(
                        j as nat,
                        |m: int| lists[m][combo[m] as int],
                    ),
                decreases width - j,
            {
                let position = combination[j];
                proof {
                    assert(position_lists[j as int].contains(combo[j as int]));
                    let w = choose|w: int|
                        0 <= w < position_lists[j as int].len() && position_lists[j as int][w]
                            == combo[j as int];
                    assert(position_lists[j as int] == all_positions(lists[j as int].len()));
                    assert(value_views(values@[j as int]@) == lists[j as int]);
                }
                let value = values[j][position].clone();
                proof {
                    lemma_value_views_push(row@, value);
                    assert(value@ == lists[j as int][combo[j as int] as int]);
                }
                row.push(value);
                assert(value_views(row@) =~= Seq::new(
                    (j + 1) as nat,
                    |m: int| lists[m][combo[m] as int],
                ));
                j = j + 1;
            }
            proof {
                lemma_row_views_push(rows@, row);
                assert(value_views(row@) =~= Seq::new(combo.len(), |m: int| lists[m][combo[m] as int]));
            }
            rows.push(row);
            proof {
                assert(combos.take(c + 1) =~= combos.take(c as int).push(combo));
                assert(row_views(rows@) =~= rows_at(lists, combos.take(c + 1)));
            }
            c = c + 1;
        }
        proof {
            assert(combos.take(count as int) =~= combos);
            assert(vec_views(combinations@).len() == combinations@.len());
        }
        rows
    }

    /// Returns the rows of the query over the archetypes: archetype after
    /// archetype, those that every parameter keeps, enabled entity after
    /// enabled entity, every way to pick one value of each parameter, the
    /// last parameter varying fastest. The caller hands each row to its
    /// callback.
    pub fn for_each<'a>(&self, archetypes: &'a [Archetype]) -> (rows: Vec<Vec<QueryValue<'a>>>)
        requires
            forall|a: int| 0 <= a < archetypes@.len() ==> (#[trigger] archetypes@[a]).wf(),
        ensures
            row_views(rows@) == query_rows(self.params@, archetypes@),
    {
        let ghost all = archetypes@;
        let mut rows: Vec<Vec<QueryValue<'a>>> = Vec::new();
        let n = archetypes.len();
        let mut a: usize = 0;
        assert(all.take(0) =~= Seq::<Archetype>::empty());
        while a < n
            invariant
                n == all.len(),
                all == archetypes@,
                a <= n,
                forall|b: int| 0 <= b < all.len() ==> (#[trigger] all[b]).wf(),
                row_views(rows@) == query_rows(self.params@, all.take(a as int)),
            decreases n - a,
        {
            let archetype: &'a Archetype = &archetypes[a];
            let ghost before = row_views(rows@);
            proof {
                assert(all.take(a + 1).drop_last() =~= all.take(a as int));
                assert(all.take(a + 1).last() == all[a as int]);
            }
            if self.filter_archetype(archetype) {
                proof {
                    assert(archetype.wf());
                    archetype.lemma_layout();
                    lemma_enabled_indices(archetype.enabled_flags());
                }
                let entities = archetype.iter();
                let ghost es = enabled_indices(archetype.enabled_flags());
                let count = entities.len();
                let mut k: usize = 0;
                assert(es.take(0) =~= Seq::<int>::empty());
                while k < count
                    invariant
                        count == entities@.len(),
                        count == es.len(),
                        es == enabled_indices(archetype.enabled_flags()),
                        archetype.wf(),
                        archetype.enabled_flags().len() == archetype.entity_count(),
                        forall|i: int|
                            0 <= i < count ==> (#[trigger] entities@[i]).archetype == archetype
                                && entities@[i].entity_id == es[i],
                        forall|i: int| 0 <= i < es.len() ==> 0 <= #[trigger] es[i] < archetype.enabled_flags().len(),
                        k <= count,
                        row_views(rows@) == before + archetype_rows(self.params@, *archetype, es.take(k as int)),
                    decreases count - k,
                {
                    let entity = entities[k];
                    let mut entity_rows = self.entity_rows(entity);
                    proof {
                        assert(es.take(k + 1).drop_last() =~= es.take(k as int));
                        assert(es.take(k + 1).last() == es[k as int]);
                    }
                    let ghost prev = rows@;
                    rows.append(&mut entity_rows);
                    proof {
                        assert(row_views(rows@) =~= row_views(prev) + row_views(
                            rows@.subrange(prev.len() as int, rows@.len() as int),
                        ));
                    }
                    k = k + 1;
                }
                assert(es.take(count as int) =~= es);
            }
            a = a + 1;
        }
        assert(all.take(n as int) =~= all);
        rows
    }
}

/// Only a parameter that requires a class leaves archetypes out: it keeps
/// exactly those whose identifier lists the class; every other parameter,
/// an optional one among them, keeps every archetype.
pub proof fn lemma_param_keeps(param: SerializedQueryParam, arch: Archetype)
    ensures
        param is With ==> (param.keeps(arch) <==> arch.type_names().contains(param->With_0.identifier@)),
        !(param is With) ==> param.keeps(arch),
{
}

/// An optional parameter gives, for an entity, the components of its class
/// when the archetype has that class, at least one of them, and a single
/// null exactly when it has not.
pub proof fn lemma_optional_values(w: WithOptional, arch: Archetype, e: int)
    requires
        arch.wf(),
        0 <= e < arch.entity_count(),
    ensures
        arch.type_names().contains(w.identifier@) ==> SerializedQueryParam::WithOptional(w).values(
            arch,
            e,
        ) == component_values(arch, w.identifier@, e) && component_values(
            arch,
            w.identifier@,
            e,
        ).len() > 0,
        !arch.type_names().contains(w.identifier@) ==> SerializedQueryParam::WithOptional(w).values(
            arch,
            e,
        ) == seq![ValueView::Null],
{
    let key = w.identifier@;
    let st = arch.storages();
    arch.lemma_layout();
    arch.lemma_layout_counts();
    assert(assoc_keys(storage_layout(st)) =~= assoc_keys(st));
    lemma_assoc_map_sorted(storage_layout(st));
    lemma_name_count_positive(arch.type_names(), key);
    assert(assoc_keys(st).contains(key) <==> arch.layout().contains_key(key)) by {
        assert(assoc_keys(storage_layout(st)).contains(key) <==> assoc_map(storage_layout(st)).contains_key(key));
    }
}

} // verus!
