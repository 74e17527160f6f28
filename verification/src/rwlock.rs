use crate::component::{class_names, AnyComponent, EntityId, EntityTypeIdentifier};
use crate::inner_archetype::{EntityCellHead, InnerArchetype};
use crate::names::str_eq;
use vstd::prelude::*;

verus! {

/// The positions of `name` in `names`, in order.
pub open spec fn indexes_of(names: Seq<Seq<char>>, name: Seq<char>) -> Seq<usize>
    decreases names.len(),
{
    if names.len() == 0 {
        Seq::empty()
    } else if names.last() == name {
        indexes_of(names.drop_last(), name).push((names.len() - 1) as usize)
    } else {
        indexes_of(names.drop_last(), name)
    }
}

/// Each combination of `ps`, in order, extended by each element of `xs`,
/// in order.
pub open spec fn extend_all(ps: Seq<Seq<usize>>, xs: Seq<usize>) -> Seq<Seq<usize>>
    decreases ps.len(),
{
    if ps.len() == 0 {
        Seq::empty()
    } else {
        extend_all(ps.drop_last(), xs) + xs.map_values(|x: usize| ps.last().push(x))
    }
}

/// All the ways to pick one element of each list, in lexicographic order
/// of the positions, the last list varying fastest.
pub open spec fn product(lists: Seq<Seq<usize>>) -> Seq<Seq<usize>>
    decreases lists.len(),
{
    if lists.len() == 0 {
        seq![Seq::<usize>::empty()]
    } else {
        extend_all(product(lists.drop_last()), lists.last())
    }
}

/// The multi cartesian product of the lists: no combination at all when
/// there is no list.
pub open spec fn cartesian(lists: Seq<Seq<usize>>) -> Seq<Seq<usize>> {
    if lists.len() == 0 {
        Seq::empty()
    } else {
        product(lists)
    }
}

/// `c` is one of `ps` followed by one of `xs`.
pub open spec fn is_extension(c: Seq<usize>, ps: Seq<Seq<usize>>, xs: Seq<usize>) -> bool {
    exists|a: int, b: int| 0 <= a < ps.len() && 0 <= b < xs.len() && c == ps[a].push(xs[b])
}

/// Each combination of `ps` extended by an element of `xs` is one of them
/// followed by that element.
proof fn lemma_extend_all_members(ps: Seq<Seq<usize>>, xs: Seq<usize>)
    ensures
        forall|k: int|
            0 <= k < extend_all(ps, xs).len() ==> is_extension(
                #[trigger] extend_all(ps, xs)[k],
                ps,
                xs,
            ),
    decreases ps.len(),
{
    if ps.len() > 0 {
        let rest = ps.drop_last();
        lemma_extend_all_members(rest, xs);
        let head = extend_all(rest, xs);
        let tail = xs.map_values(|x: usize| ps.last().push(x));
        assert forall|k: int| 0 <= k < extend_all(ps, xs).len() implies is_extension(
            #[trigger] extend_all(ps, xs)[k],
            ps,
            xs,
        ) by {
            if k < head.len() {
                assert(extend_all(ps, xs)[k] == head[k]);
                assert(is_extension(head[k], rest, xs));
                let (a, b) = choose|a: int, b: int|
                    0 <= a < rest.len() && 0 <= b < xs.len() && head[k] == rest[a].push(xs[b]);
                assert(rest[a] == ps[a]);
                assert(extend_all(ps, xs)[k] == ps[a].push(xs[b]));
            } else {
                let b = k - head.len();
                assert(extend_all(ps, xs)[k] == tail[b]);
                assert(ps.last() == ps[ps.len() - 1]);
                assert(extend_all(ps, xs)[k] == ps[ps.len() - 1].push(xs[b]));
            }
        }
    }
}

/// Every combination of the product picks, for each list in turn, one of
/// its elements.
pub proof fn lemma_product_members(lists: Seq<Seq<usize>>)
    ensures
        forall|k: int|
            0 <= k < product(lists).len() ==> (#[trigger] product(lists)[k]).len() == lists.len()
                && forall|i: int|
                0 <= i < lists.len() ==> lists[i].contains(#[trigger] product(lists)[k][i]),
    decreases lists.len(),
{
    if lists.len() > 0 {
        let rest = lists.drop_last();
        lemma_product_members(rest);
        let ps = product(rest);
        let xs = lists.last();
        lemma_extend_all_members(ps, xs);
        assert forall|k: int| 0 <= k < product(lists).len() implies (#[trigger] product(lists)[k]).len()
            == lists.len() && forall|i: int|
            0 <= i < lists.len() ==> lists[i].contains(#[trigger] product(lists)[k][i]) by {
            assert(is_extension(extend_all(ps, xs)[k], ps, xs));
            let (a, b) = choose|a: int, b: int|
                0 <= a < ps.len() && 0 <= b < xs.len() && extend_all(ps, xs)[k] == ps[a].push(xs[b]);
            let c = product(lists)[k];
            assert(c == ps[a].push(xs[b]));
            assert forall|i: int| 0 <= i < lists.len() implies lists[i].contains(#[trigger] c[i]) by {
                if i < rest.len() {
                    assert(rest[i] == lists[i]);
                    assert(c[i] == ps[a][i]);
                } else {
                    assert(c[i] == xs[b]);
                    assert(lists[i] == xs);
                }
            }
        }
    } else {
        assert(product(lists) == seq![Seq::<usize>::empty()]);
    }
}

/// The views of a list of vectors.
pub open spec fn vec_views(vs: Seq<Vec<usize>>) -> Seq<Seq<usize>> {
    vs.map_values(|v: Vec<usize>| v@)
}

/// The views of vectors, one more pushed.
pub proof fn lemma_vec_views_push(vs: Seq<Vec<usize>>, v: Vec<usize>)
    ensures
        vec_views(vs.push(v)) == vec_views(vs).push(v@),
{
    assert(vec_views(vs.push(v)) =~= vec_views(vs).push(v@));
}

/// The views of vectors, the first one dropped.
proof fn lemma_vec_views_drop_first(vs: Seq<Vec<usize>>)
    requires
        vs.len() > 0,
    ensures
        vec_views(vs.subrange(1, vs.len() as int)) == vec_views(vs).skip(1),
        vec_views(vs)[0] == vs[0]@,
{
    assert(vec_views(vs.subrange(1, vs.len() as int)) =~= vec_views(vs).skip(1));
}

/// A copy of `prefix` with `x` at the end.
fn pushed(prefix: &Vec<usize>, x: usize) -> (res: Vec<usize>)
    ensures
        res@ == prefix@.push(x),
{
    let mut res: Vec<usize> = Vec::new();
    let n = prefix.len();
    let mut i: usize = 0;
    while i < n
        invariant
            n == prefix@.len(),
            i <= n,
            res@ == prefix@.take(i as int),
        decreases n - i,
    {
        res.push(prefix[i]);
        assert(res@ =~= prefix@.take(i + 1));
        i = i + 1;
    }
    res.push(x);
    assert(res@ =~= prefix@.push(x));
    res
}

/// Returns every way to pick one element of each list, in lexicographic
/// order, the last list varying fastest; none when there is no list.
pub fn multi_cartesian_product(lists: &Vec<Vec<usize>>) -> (res: Vec<Vec<usize>>)
    ensures
        vec_views(res@) == cartesian(vec_views(lists@)),
{
    let ghost ls = vec_views(lists@);
    let mut result: Vec<Vec<usize>> = Vec::new();
    if lists.len() == 0 {
        assert(vec_views(result@) =~= cartesian(ls));
        return result;
    }
    result.push(Vec::new());
    assert(ls.take(0) =~= Seq::<Seq<usize>>::empty());
    assert(vec_views(result@) =~= product(ls.take(0)));
    let n = lists.len();
    let mut k: usize = 0;
    while k < n
        invariant
            n == lists@.len(),
            ls == vec_views(lists@),
            k <= n,
            vec_views(result@) == product(ls.take(k as int)),
        decreases n - k,
    {
        let list = &lists[k];
        let ghost xs = list@;
        let ghost ps = vec_views(result@);
        let mut next: Vec<Vec<usize>> = Vec::new();
        let count = result.len();
        let mut i: usize = 0;
        assert(ps.take(0) =~= Seq::<Seq<usize>>::empty());
        while i < count
            invariant
                count == result@.len(),
                ps == vec_views(result@),
                xs == list@,
                i <= count,
                vec_views(next@) == extend_all(ps.take(i as int), xs),
            decreases count - i,
        {
            let prefix = &result[i];
            let ghost before = vec_views(next@);
            let m = list.len();
            let mut j: usize = 0;
            while j < m
                invariant
                    m == xs.len(),
                    xs == list@,
                    prefix@ == ps[i as int],
                    j <= m,
                    vec_views(next@) == before + xs.take(j as int).map_values(
                        |x: usize| prefix@.push(x),
                    ),
                decreases m - j,
            {
                let item = pushed(prefix, list[j]);
                proof {
                    lemma_vec_views_push(next@, item);
                    assert(xs.take(j + 1).map_values(|x: usize| prefix@.push(x)) =~= xs.take(
                        j as int,
                    ).map_values(|x: usize| prefix@.push(x)).push(prefix@.push(xs[j as int])));
                }
                next.push(item);
                assert(vec_views(next@) =~= before + xs.take(j + 1).map_values(
                    |x: usize| prefix@.push(x),
                ));
                j = j + 1;
            }
            proof {
                assert(xs.take(m as int) =~= xs);
                assert(ps.take(i + 1).drop_last() =~= ps.take(i as int));
                assert(ps.take(i + 1).last() == ps[i as int]);
            }
            i = i + 1;
        }
        proof {
            assert(ps.take(count as int) =~= ps);
            assert(ls.take(k + 1).drop_last() =~= ls.take(k as int));
            assert(ls.take(k + 1).last() == xs);
        }
        result = next;
        k = k + 1;
    }
    assert(ls.take(n as int) =~= ls);
    result
}

/// A handle over an entity of an inner archetype, this is the handle that
/// will be used by the extern user to access datas
pub struct EntitySharedRwLock<'a> {
    pub inner: &'a InnerArchetype,
    pub buffer_index: usize,
    pub identifier: EntityTypeIdentifier,
    pub components_per_entity: usize,
    pub entity_size: usize,
}

impl<'a> Clone for EntitySharedRwLock<'a> {
    fn clone(&self) -> (res: Self)
        ensures
            res.inner == self.inner,
            res.buffer_index == self.buffer_index,
            res.identifier@ == self.identifier@,
            res.components_per_entity == self.components_per_entity,
            res.entity_size == self.entity_size,
    {
        EntitySharedRwLock {
            inner: self.inner,
            buffer_index: self.buffer_index,
            identifier: self.identifier.clone(),
            components_per_entity: self.components_per_entity,
            entity_size: self.entity_size,
        }
    }
}

/// A read access to an entity of an inner archetype: its head and its
/// components.
pub struct EntityReadGuard<'a> {
    pub entity_head: &'a EntityCellHead,
    pub components: &'a [AnyComponent],
}

impl<'a> EntityReadGuard<'a> {
    /// Get the list of the components in the entity
    pub fn get_components(&self) -> (components: &'a [AnyComponent])
        ensures
            components@ == self.components@,
    {
        self.components
    }

    /// Get the first component of class `component_type`, if any
    ///
    /// # Arguments
    /// * `component_type` - The component type
    ///
    pub fn get_component(&self, component_type: &str) -> (res: Option<&'a AnyComponent>)
        ensures
            res is Some <==> class_names(self.components@).contains(component_type@),
            res matches Some(c) ==> exists|i: int|
                0 <= i < self.components@.len() && *c == self.components@[i]
                    && self.components@[i].class_name@ == component_type@ && forall|j: int|
                    0 <= j < i ==> #[trigger] self.components@[j].class_name@ != component_type@,
    {
        let components: &'a [AnyComponent] = self.components;
        match first_of_class(components, component_type) {
            Some(i) => Some(&components[i]),
            None => None,
        }
    }
}

/// The position of the first component of class `name`, if any.
fn first_of_class(components: &[AnyComponent], name: &str) -> (res: Option<usize>)
    ensures
        res is Some <==> class_names(components@).contains(name@),
        res matches Some(i) ==> i < components@.len() && components@[i as int].class_name@ == name@
            && forall|j: int| 0 <= j < i ==> #[trigger] components@[j].class_name@ != name@,
{
    let n = components.len();
    let mut i: usize = 0;
    while i < n
        invariant
            n == components@.len(),
            i <= n,
            forall|j: int| 0 <= j < i ==> #[trigger] components@[j].class_name@ != name@,
        decreases n - i,
    {
        if str_eq(components[i].class_name.as_str(), name) {
            assert(class_names(components@)[i as int] == name@);
            return Some(i);
        }
        i = i + 1;
    }
    proof {
        if class_names(components@).contains(name@) {
            let j = choose|j: int| 0 <= j < n && class_names(components@)[j] == name@;
            assert(components@[j].class_name@ == name@);
        }
    }
    None
}

impl<'a> EntitySharedRwLock<'a> {
    /// The handle points at a cell of its archetype.
    pub open spec fn valid(&self) -> bool {
        self.buffer_index < self.inner.cells().len()
    }

    /// The components of the entity.
    pub open spec fn entity_components(&self) -> Seq<AnyComponent> {
        self.inner.cells()[self.buffer_index as int].components@
    }

    /// Returns an EntitySharedRwLock
    pub fn new(
        inner: &'a InnerArchetype,
        buffer_index: usize,
        identifier: EntityTypeIdentifier,
        components_per_entity: usize,
        entity_size: usize,
    ) -> (res: EntitySharedRwLock<'a>)
        ensures
            res.inner == inner,
            res.buffer_index == buffer_index,
            res.identifier@ == identifier@,
            res.components_per_entity == components_per_entity,
            res.entity_size == entity_size,
    {
        EntitySharedRwLock { inner, buffer_index, identifier, components_per_entity, entity_size }
    }

    /// Create a read guard over the entity
    pub fn read(&self) -> (guard: EntityReadGuard<'a>)
        requires
            self.valid(),
        ensures
            *guard.entity_head == self.inner.cells()[self.buffer_index as int].head,
            guard.components@ == self.entity_components(),
    {
        let inner: &'a InnerArchetype = self.inner;
        EntityReadGuard {
            entity_head: inner.cell_head(self.buffer_index),
            components: inner.cell_components(self.buffer_index),
        }
    }

    /// Get a component rwlock
    ///
    /// # Arguments
    /// * `component_type` - The component type
    ///
    pub fn get_component(&self, component_type: &str) -> (res: Option<ComponentRwLock<'a>>)
        requires
            self.valid(),
        ensures
            res is Some <==> class_names(self.entity_components()).contains(component_type@),
            res matches Some(lock) ==> lock.entity.inner == self.inner && lock.entity.buffer_index
                == self.buffer_index && lock.component_index < self.entity_components().len()
                && self.entity_components()[lock.component_index as int].class_name@
                == component_type@ && forall|j: int|
                0 <= j < lock.component_index ==> #[trigger] self.entity_components()[j].class_name@
                    != component_type@,
    {
        let reader = self.read();
        match first_of_class(reader.get_components(), component_type) {
            Some(index) => Some(ComponentRwLock::new(self.clone(), index)),
            None => None,
        }
    }

    /// Check if the entity contains the given component types
    ///
    /// # Arguments
    /// * `component_types` - The component types
    ///
    pub fn contains(&self, component_types: &EntityTypeIdentifier) -> (res: bool)
        requires
            self.valid(),
        ensures
            res == forall|j: int|
                0 <= j < component_types@.len() ==> class_names(self.entity_components()).contains(
                    #[trigger] component_types@[j],
                ),
    {
        let reader = self.read();
        let components = reader.get_components();
        let n = component_types.0.len();
        let mut j: usize = 0;
        while j < n
            invariant
                n == component_types@.len(),
                j <= n,
                components@ == self.entity_components(),
                forall|k: int|
                    0 <= k < j ==> class_names(self.entity_components()).contains(
                        #[trigger] component_types@[k],
                    ),
            decreases n - j,
        {
            let found = first_of_class(components, component_types.0[j].as_str());
            if found.is_none() {
                assert(component_types@[j as int] == component_types.0@[j as int]@);
                return false;
            }
            j = j + 1;
        }
        true
    }

    /// Get components count
    pub fn len(&self) -> (n: usize)
        requires
            self.valid(),
        ensures
            n == self.entity_components().len(),
    {
        let reader = self.read();
        reader.get_components().len()
    }

    /// Get a handle over each component of the entity, in order
    pub fn iter_all_components(&self) -> (res: Vec<ComponentRwLock<'a>>)
        requires
            self.valid(),
        ensures
            res@.len() == self.entity_components().len(),
            forall|i: int|
                0 <= i < res@.len() ==> (#[trigger] res@[i]).component_index == i
                    && res@[i].entity.inner == self.inner && res@[i].entity.buffer_index
                    == self.buffer_index,
    {
        let n = self.len();
        let mut res: Vec<ComponentRwLock<'a>> = Vec::new();
        let mut i: usize = 0;
        while i < n
            invariant
                i <= n,
                res@.len() == i,
                forall|k: int|
                    0 <= k < i ==> (#[trigger] res@[k]).component_index == k && res@[k].entity.inner
                        == self.inner && res@[k].entity.buffer_index == self.buffer_index,
            decreases n - i,
        {
            res.push(ComponentRwLock::new(self.clone(), i));
            i = i + 1;
        }
        res
    }

    /// Get collections of components list handles
    /// Cause an entity can contain multiple component of the same type, can
    /// returns multiple lists: one for each way to pick, for each requested
    /// type in turn, one of the positions of that type in the archetype
    /// identifier
    ///
    /// # Arguments
    /// * `target_identifier` - The identifier list of the components, components will be returned with the same order
    ///
    pub fn iter_components(&self, target_identifier: &EntityTypeIdentifier) -> (res: Vec<
        ComponentListRwLock<'a>,
    >)
        ensures
            res@.len() == cartesian(
                target_identifier@.map_values(|name: Seq<char>| indexes_of(self.identifier@, name)),
            ).len(),
            forall|i: int|
                0 <= i < res@.len() ==> (#[trigger] res@[i]).component_indexes@ == cartesian(
                    target_identifier@.map_values(
                        |name: Seq<char>| indexes_of(self.identifier@, name),
                    ),
                )[i] && res@[i].entity.inner == self.inner && res@[i].entity.buffer_index
                    == self.buffer_index,
    {
        let ghost wanted = target_identifier@.map_values(
            |name: Seq<char>| indexes_of(self.identifier@, name),
        );
        let mut lists: Vec<Vec<usize>> = Vec::new();
        let n = target_identifier.0.len();
        let mut k: usize = 0;
        while k < n
            invariant
                n == target_identifier@.len(),
                k <= n,
                vec_views(lists@) == wanted.take(k as int),
                wanted == target_identifier@.map_values(
                    |name: Seq<char>| indexes_of(self.identifier@, name),
                ),
            decreases n - k,
        {
            let list = positions_of(&self.identifier, target_identifier.0[k].as_str());
            proof {
                lemma_vec_views_push(lists@, list);
                assert(target_identifier@[k as int] == target_identifier.0@[k as int]@);
                assert(wanted[k as int] == list@);
                assert(wanted.take(k + 1) =~= wanted.take(k as int).push(wanted[k as int]));
            }
            lists.push(list);
            assert(vec_views(lists@) =~= wanted.take(k + 1));
            k = k + 1;
        }
        assert(wanted.take(n as int) =~= wanted);
        let combinations = multi_cartesian_product(&lists);
        let mut res: Vec<ComponentListRwLock<'a>> = Vec::new();
        let mut combinations = combinations;
        let ghost all = vec_views(combinations@);
        let ghost mut done: int = 0;
        while combinations.len() > 0
            invariant
                0 <= done <= all.len(),
                vec_views(combinations@) == all.skip(done),
                res@.len() == done,
                forall|i: int|
                    0 <= i < done ==> (#[trigger] res@[i]).component_indexes@ == all[i]
                        && res@[i].entity.inner == self.inner && res@[i].entity.buffer_index
                        == self.buffer_index,
            decreases combinations@.len(),
        {
            proof {
                lemma_vec_views_drop_first(combinations@);
                assert(all.skip(done)[0] == all[done]);
                assert(all.skip(done).skip(1) =~= all.skip(done + 1));
            }
            let combination = combinations.remove(0);
            proof {
                assert(combination@ == all[done]);
                assert(vec_views(combinations@) =~= all.skip(done + 1));
                done = done + 1;
            }
            res.push(ComponentListRwLock::new(self.clone(), combination));
        }
        res
    }
}

/// The positions of `name` in the identifier, in order.
fn positions_of(identifier: &EntityTypeIdentifier, name: &str) -> (res: Vec<usize>)
    ensures
        res@ == indexes_of(identifier@, name@),
{
    let mut res: Vec<usize> = Vec::new();
    let n = identifier.0.len();
    let mut i: usize = 0;
    assert(identifier@.take(0) =~= Seq::<Seq<char>>::empty());
    while i < n
        invariant
            n == identifier@.len(),
            i <= n,
            res@ == indexes_of(identifier@.take(i as int), name@),
        decreases n - i,
    {
        proof {
            assert(identifier@.take(i + 1).drop_last() =~= identifier@.take(i as int));
            assert(identifier@.take(i + 1).last() == identifier.0@[i as int]@);
        }
        if str_eq(identifier.0[i].as_str(), name) {
            res.push(i);
        }
        i = i + 1;
    }
    assert(identifier@.take(n as int) =~= identifier@);
    res
}

/// A write access to an entity of an inner archetype: its head, and its
/// components for writing.
pub struct EntityWriteGuard<'a> {
    pub entity_head: &'a EntityCellHead,
    pub components: &'a mut [AnyComponent],
}

impl<'a> EntityWriteGuard<'a> {
    /// The components as the guard sees them now.
    pub open spec fn current_components(&self) -> Seq<AnyComponent> {
        self.components@
    }

    /// Get the list of the components in the entity
    pub fn get_components(&self) -> (components: &[AnyComponent])
        ensures
            components@ == self.current_components(),
    {
        &*self.components
    }

    /// Get the list of the components in the entity, for writing
    pub fn get_components_mut(&mut self) -> (components: &mut [AnyComponent])
        ensures
            components@ == old(self).components@,
            final(self).entity_head == old(self).entity_head,
            final(self).components@ == final(components)@,
    {
        &mut *self.components
    }

    /// Get the first component of class `component_type`, if any, for
    /// writing
    ///
    /// # Arguments
    /// * `component_type` - The component type
    ///
    pub fn get_component_mut(&mut self, component_type: &str) -> (res: Option<&mut AnyComponent>)
        ensures
            res is Some <==> class_names(old(self).components@).contains(component_type@),
            final(self).entity_head == old(self).entity_head,
            res matches Some(component) ==> exists|i: int|
                0 <= i < old(self).components@.len() && old(self).components@[i].class_name@
                    == component_type@ && (forall|j: int|
                    0 <= j < i ==> #[trigger] old(self).components@[j].class_name@
                        != component_type@) && *component == old(self).components@[i]
                    && final(self).components@ == old(self).components@.update(i, *final(component)),
            res is None ==> final(self).components@ == old(self).components@,
    {
        let found = first_of_class(&*self.components, component_type);
        match found {
            Some(i) => {
                let all: &mut [AnyComponent] = &mut *self.components;
                let ghost whole = all@;
                let (head, rest) = all.split_at_mut(i);
                let first = rest.first_mut();
                proof {
                    assert(head@ =~= whole.subrange(0, i as int));
                }
                first
            },
            None => None,
        }
    }
}

/// A handle over a component of an entity
pub struct ComponentRwLock<'a> {
    pub entity: EntitySharedRwLock<'a>,
    pub component_index: usize,
}

impl<'a> ComponentRwLock<'a> {
    /// Returns a ComponentRwLock
    pub fn new(entity: EntitySharedRwLock<'a>, component_index: usize) -> (res: ComponentRwLock<'a>)
        ensures
            res.entity == entity,
            res.component_index == component_index,
    {
        ComponentRwLock { entity, component_index }
    }

    /// Reads the component
    pub fn read(&self) -> (component: &'a AnyComponent)
        requires
            self.entity.valid(),
            self.component_index < self.entity.entity_components().len(),
        ensures
            *component == self.entity.entity_components()[self.component_index as int],
    {
        let guard = self.entity.read();
        let components: &'a [AnyComponent] = guard.get_components();
        &components[self.component_index]
    }
}

/// A handle over a list of components of an entity
pub struct ComponentListRwLock<'a> {
    pub entity: EntitySharedRwLock<'a>,
    pub component_indexes: Vec<usize>,
}

impl<'a> ComponentListRwLock<'a> {
    /// Returns a ComponentListRwLock
    ///
    /// # Arguments
    /// * `entity` - The entity handle
    /// * `component_indexes` - The positions of the components in the entity
    ///
    pub fn new(entity: EntitySharedRwLock<'a>, component_indexes: Vec<usize>) -> (res:
        ComponentListRwLock<'a>)
        ensures
            res.entity == entity,
            res.component_indexes@ == component_indexes@,
    {
        ComponentListRwLock { entity, component_indexes }
    }

    /// Returns the associated entity id
    pub fn entity_id(&self) -> (id: EntityId)
        requires
            self.entity.valid(),
        ensures
            id == self.entity.inner.cells()[self.entity.buffer_index as int].head.entity_id,
    {
        let entity = self.entity.read();
        entity.entity_head.entity_id
    }

    /// Returns a handle over a specific component
    ///
    /// # Arguments
    /// * `index` - The index of the component in this list
    ///
    pub fn get(&self, index: usize) -> (res: Option<ComponentRwLock<'a>>)
        ensures
            index < self.component_indexes@.len() ==> (res matches Some(lock) && lock.entity.inner
                == self.entity.inner && lock.entity.buffer_index == self.entity.buffer_index
                && lock.component_index == self.component_indexes@[index as int]),
            index >= self.component_indexes@.len() ==> res is None,
    {
        if index < self.component_indexes.len() {
            Some(ComponentRwLock::new(self.entity.clone(), self.component_indexes[index]))
        } else {
            None
        }
    }

    /// Returns the component count
    pub fn len(&self) -> (n: usize)
        ensures
            n == self.component_indexes@.len(),
    {
        self.component_indexes.len()
    }

    /// Create a read guard over the components of the list
    pub fn read(&self) -> (guard: ComponentListReadGuard<'a>)
        requires
            self.entity.valid(),
        ensures
            guard.guard.components@ == self.entity.entity_components(),
            *guard.guard.entity_head == self.entity.inner.cells()[self.entity.buffer_index as int].head,
            guard.component_indexes@ == self.component_indexes@,
    {
        ComponentListReadGuard { guard: self.entity.read(), component_indexes: self.component_indexes.clone() }
    }
}

/// A read access to a list of components of an entity: the entity, and the
/// positions of the components among its components.
pub struct ComponentListReadGuard<'a> {
    pub guard: EntityReadGuard<'a>,
    pub component_indexes: Vec<usize>,
}

impl<'a> ComponentListReadGuard<'a> {
    /// Returns the components of the list, in order
    pub fn get_components(&self) -> (components: Vec<&'a AnyComponent>)
        requires
            forall|i: int|
                0 <= i < self.component_indexes@.len() ==> #[trigger] self.component_indexes@[i]
                    < self.guard.components@.len(),
        ensures
            components@.len() == self.component_indexes@.len(),
            forall|i: int|
                0 <= i < components@.len() ==> *(#[trigger] components@[i])
                    == self.guard.components@[self.component_indexes@[i] as int],
    {
        let all: &'a [AnyComponent] = self.guard.components;
        let mut components: Vec<&'a AnyComponent> = Vec::new();
        let n = self.component_indexes.len();
        let mut i: usize = 0;
        while i < n
            invariant
                n == self.component_indexes@.len(),
                all@ == self.guard.components@,
                forall|k: int|
                    0 <= k < n ==> #[trigger] self.component_indexes@[k] < all@.len(),
                i <= n,
                components@.len() == i,
                forall|k: int|
                    0 <= k < i ==> *(#[trigger] components@[k]) == all@[self.component_indexes@[k] as int],
            decreases n - i,
        {
            let index = self.component_indexes[i];
            components.push(&all[index]);
            i = i + 1;
        }
        components
    }
}

} // verus!
