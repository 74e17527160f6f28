use crate::archetype::{storage_layout, storage_slots, Archetype, EntityReference};
use crate::component::{EntityId, StaticComponent};
use crate::grouping::{assoc_keys, assoc_map};
use crate::guards::{ComponentReadGuard, TypedComponentReadGuard};
use core::marker::PhantomData;
use vstd::prelude::*;

verus! {

/// The access to an entity that the injected parameters need.
#[derive(Clone, Copy, PartialEq, Eq, Structural)]
pub enum RequestedEntityGuard {
    /// No guard required
    NoAccess,
    /// Read guard required
    Read,
    /// Write guard required
    Write,
}

/// A write access when one parameter writes, else a read access when one
/// reads, else none.
pub open spec fn guard_for(require_read: bool, require_write: bool) -> RequestedEntityGuard {
    if require_write {
        RequestedEntityGuard::Write
    } else if require_read {
        RequestedEntityGuard::Read
    } else {
        RequestedEntityGuard::NoAccess
    }
}

/// Returns the access the parameters need.
pub fn requested_guard(require_read: bool, require_write: bool) -> (guard: RequestedEntityGuard)
    ensures
        guard == guard_for(require_read, require_write),
{
    if require_write {
        RequestedEntityGuard::Write
    } else if require_read {
        RequestedEntityGuard::Read
    } else {
        RequestedEntityGuard::NoAccess
    }
}

/// The guard allows what a parameter needs.
pub open spec fn guard_allows(guard: RequestedEntityGuard, reads: bool, writes: bool) -> bool {
    &&& reads ==> guard != RequestedEntityGuard::NoAccess
    &&& writes ==> guard == RequestedEntityGuard::Write
}

/// The entity reference is valid.
pub open spec fn entity_valid<'a>(entity: EntityReference<'a>) -> bool {
    entity.archetype.wf() && entity.entity_id < entity.archetype.entity_count()
}

/// A trait for types that can be exposed from components references
pub trait QueryInjectable<'a>: Sized {
    /// Whether the type needs a read access to the entity.
    spec fn reads() -> bool;

    /// Whether the type needs a write access to the entity.
    spec fn writes() -> bool;

    /// `values` are the values injected for `entity`.
    spec fn injected(entity: EntityReference<'a>, values: Seq<Self>) -> bool;

    /// Does this require a read guard over the reference
    fn require_read() -> (b: bool)
        ensures
            b == Self::reads(),
    ;

    /// Does this require a write guard over the reference
    fn require_write() -> (b: bool)
        ensures
            b == Self::writes(),
    ;

    /// Get the objects
    fn from_components(entity: EntityReference<'a>, guard: RequestedEntityGuard) -> (res: Vec<Self>)
        requires
            entity_valid(entity),
            guard_allows(guard, Self::reads(), Self::writes()),
        ensures
            Self::injected(entity, res@),
    ;
}

impl<'a> QueryInjectable<'a> for EntityReference<'a> {
    open spec fn reads() -> bool {
        false
    }

    open spec fn writes() -> bool {
        false
    }

    open spec fn injected(entity: EntityReference<'a>, values: Seq<Self>) -> bool {
        values == seq![entity]
    }

    fn require_read() -> (b: bool) {
        false
    }

    fn require_write() -> (b: bool) {
        false
    }

    fn from_components(entity: EntityReference<'a>, guard: RequestedEntityGuard) -> (res: Vec<Self>) {
        let mut res: Vec<EntityReference<'a>> = Vec::new();
        res.push(entity);
        assert(res@ =~= seq![entity]);
        res
    }
}

impl<'a> QueryInjectable<'a> for EntityId {
    open spec fn reads() -> bool {
        true
    }

    open spec fn writes() -> bool {
        false
    }

    open spec fn injected(entity: EntityReference<'a>, values: Seq<Self>) -> bool {
        values == seq![entity.archetype.entity_ids()[entity.entity_id as int]]
    }

    fn require_read() -> (b: bool) {
        true
    }

    fn require_write() -> (b: bool) {
        false
    }

    fn from_components(entity: EntityReference<'a>, guard: RequestedEntityGuard) -> (res: Vec<Self>) {
        let guard = entity.read();
        let mut res: Vec<EntityId> = Vec::new();
        res.push(guard.get_entity_id());
        assert(res@ =~= seq![entity.archetype.entity_ids()[entity.entity_id as int]]);
        res
    }
}

impl<'a> QueryInjectable<'a> for String {
    open spec fn reads() -> bool {
        true
    }

    open spec fn writes() -> bool {
        false
    }

    open spec fn injected(entity: EntityReference<'a>, values: Seq<Self>) -> bool {
        values.len() == 1 && values[0]@ == entity.archetype.names()[entity.entity_id as int]
    }

    fn require_read() -> (b: bool) {
        true
    }

    fn require_write() -> (b: bool) {
        false
    }

    fn from_components(entity: EntityReference<'a>, guard: RequestedEntityGuard) -> (res: Vec<Self>) {
        let guard = entity.read();
        let mut res: Vec<String> = Vec::new();
        res.push(guard.get_name());
        res
    }
}

impl<'a> QueryInjectable<'a> for bool {
    open spec fn reads() -> bool {
        true
    }

    open spec fn writes() -> bool {
        false
    }

    open spec fn injected(entity: EntityReference<'a>, values: Seq<Self>) -> bool {
        values == seq![entity.archetype.enabled_flags()[entity.entity_id as int]]
    }

    fn require_read() -> (b: bool) {
        true
    }

    fn require_write() -> (b: bool) {
        false
    }

    fn from_components(entity: EntityReference<'a>, guard: RequestedEntityGuard) -> (res: Vec<Self>) {
        let guard = entity.read();
        let mut res: Vec<bool> = Vec::new();
        res.push(guard.is_enabled());
        assert(res@ =~= seq![entity.archetype.enabled_flags()[entity.entity_id as int]]);
        res
    }
}

/// The places of the components of class `name` of an entity.
pub open spec fn class_slots<'a>(entity: EntityReference<'a>, name: Seq<char>) -> Seq<(Seq<char>, int)> {
    entity_class_slots(*entity.archetype, entity.entity_id as int, name)
}

/// The places of the components of class `name` of entity `e` of `arch`.
pub open spec fn entity_class_slots(arch: Archetype, e: int, name: Seq<char>) -> Seq<(Seq<char>, int)> {
    if assoc_keys(arch.storages()).contains(name) {
        storage_slots(name, assoc_map(storage_layout(arch.storages()))[name], e)
    } else {
        Seq::empty()
    }
}

impl<'a, T: StaticComponent> QueryInjectable<'a> for TypedComponentReadGuard<'a, T> {
    open spec fn reads() -> bool {
        true
    }

    open spec fn writes() -> bool {
        false
    }

    open spec fn injected(entity: EntityReference<'a>, values: Seq<Self>) -> bool {
        &&& values.len() == class_slots(entity, T::component_name()).len()
        &&& forall|i: int|
            0 <= i < values.len() ==> (#[trigger] values[i]).component_reader.archetype
                == entity.archetype && values[i].component_reader.component_identifier@
                == T::component_name() && values[i].component_reader.component_index
                == class_slots(entity, T::component_name())[i].1
    }

    fn require_read() -> (b: bool) {
        true
    }

    fn require_write() -> (b: bool) {
        false
    }

    fn from_components(entity: EntityReference<'a>, guard: RequestedEntityGuard) -> (res: Vec<Self>) {
        let name = T::get_component_name();
        let guard = entity.read();
        let readers = guard.iter_components_from_type_identifier(name.as_str());
        let ghost slots = class_slots(entity, T::component_name());
        let mut res: Vec<TypedComponentReadGuard<'a, T>> = Vec::new();
        let mut readers = readers;
        let ghost all = readers@;
        let ghost mut done: int = 0;
        proof {
            if !assoc_keys(entity.archetype.storages()).contains(name@) {
                assert(all.len() == 0);
            }
        }
        while readers.len() > 0
            invariant
                0 <= done <= all.len(),
                all.len() == slots.len(),
                readers@ == all.skip(done),
                res@.len() == done,
                forall|i: int|
                    0 <= i < all.len() ==> (#[trigger] all[i]).archetype == entity.archetype
                        && all[i].component_identifier@ == T::component_name()
                        && all[i].component_index == slots[i].1,
                forall|i: int|
                    0 <= i < done ==> (#[trigger] res@[i]).component_reader.archetype
                        == entity.archetype && res@[i].component_reader.component_identifier@
                        == T::component_name() && res@[i].component_reader.component_index
                        == slots[i].1,
            decreases readers@.len(),
        {
            let reader = readers.remove(0);
            proof {
                assert(reader == all[done]);
                assert(readers@ =~= all.skip(done + 1));
                done = done + 1;
            }
            res.push(TypedComponentReadGuard { component_reader: reader, phantom: PhantomData });
        }
        res
    }
}

/// Each value of `xs`, in order, paired with each value of `ys`, in order,
/// both cloned.
pub open spec fn paired<A: Clone, B: Clone>(xs: Seq<A>, ys: Seq<B>, out: Seq<(A, B)>) -> bool
    decreases xs.len(),
{
    if xs.len() == 0 {
        out.len() == 0
    } else {
        &&& out.len() >= ys.len()
        &&& paired(xs.drop_last(), ys, out.take(out.len() - ys.len()))
        &&& forall|j: int|
            0 <= j < ys.len() ==> cloned(
                xs.last(),
                #[trigger] out[out.len() - ys.len() + j].0,
            ) && cloned(ys[j], out[out.len() - ys.len() + j].1)
    }
}

/// A trait that is implemented by functions that supports dependency
/// injection: for an entity, the arguments to call the function with.
pub trait QueryInject<'a> {
    /// The arguments of one call.
    type Arguments;

    /// `args` are the calls made for `entity`, in order.
    spec fn calls(entity: EntityReference<'a>, args: Seq<Self::Arguments>) -> bool;

    /// Get the arguments of the calls of the function for an entity
    fn inject(&self, entity: EntityReference<'a>) -> (args: Vec<Self::Arguments>)
        requires
            entity_valid(entity),
        ensures
            Self::calls(entity, args@),
    ;
}

/// A function with no parameter, called once per entity
pub struct Inject0<F> {
    pub callback: F,
}

impl<F> Inject0<F> {
    /// New instance
    pub fn new(val: F) -> (res: Self)
        ensures
            res.callback == val,
    {
        Inject0 { callback: val }
    }
}

impl<'a, F> QueryInject<'a> for Inject0<F> {
    type Arguments = ();

    open spec fn calls(entity: EntityReference<'a>, args: Seq<()>) -> bool {
        args.len() == 1
    }

    fn inject(&self, entity: EntityReference<'a>) -> (args: Vec<()>) {
        let mut args: Vec<()> = Vec::new();
        args.push(());
        args
    }
}

/// A function with one parameter, called once per injected value
pub struct Inject1<T1, F> {
    pub callback: F,
    pub phantom: PhantomData<T1>,
}

impl<T1, F> Inject1<T1, F> {
    /// New instance
    pub fn new(val: F) -> (res: Self)
        ensures
            res.callback == val,
    {
        Inject1 { callback: val, phantom: PhantomData }
    }
}

impl<'a, T1: QueryInjectable<'a>, F> QueryInject<'a> for Inject1<T1, F> {
    type Arguments = T1;

    open spec fn calls(entity: EntityReference<'a>, args: Seq<T1>) -> bool {
        T1::injected(entity, args)
    }

    fn inject(&self, entity: EntityReference<'a>) -> (args: Vec<T1>) {
        let require_read = T1::require_read();
        let require_write = T1::require_write();
        let guard = requested_guard(require_read, require_write);
        T1::from_components(entity, guard)
    }
}

/// A function with two parameters, called once per pair of injected
/// values, the second varying fastest
pub struct Inject2<T1, T2, F> {
    pub callback: F,
    pub phantom: PhantomData<(T1, T2)>,
}

impl<T1, T2, F> Inject2<T1, T2, F> {
    /// New instance
    pub fn new(val: F) -> (res: Self)
        ensures
            res.callback == val,
    {
        Inject2 { callback: val, phantom: PhantomData }
    }
}

impl<'a, T1: QueryInjectable<'a> + Clone, T2: QueryInjectable<'a> + Clone, F> QueryInject<'a> for Inject2<
    T1,
    T2,
    F,
> {
    type Arguments = (T1, T2);

    open spec fn calls(entity: EntityReference<'a>, args: Seq<(T1, T2)>) -> bool {
        exists|xs: Seq<T1>, ys: Seq<T2>|
            T1::injected(entity, xs) && T2::injected(entity, ys) && #[trigger] paired(xs, ys, args)
    }

    fn inject(&self, entity: EntityReference<'a>) -> (args: Vec<(T1, T2)>) {
        let require_read = T1::require_read() || T2::require_read();
        let require_write = T1::require_write() || T2::require_write();
        let guard = requested_guard(require_read, require_write);
        let xs = T1::from_components(entity, guard);
        let ys = T2::from_components(entity, guard);
        let mut args: Vec<(T1, T2)> = Vec::new();
        let n = xs.len();
        let m = ys.len();
        let mut i: usize = 0;
        assert(xs@.take(0) =~= Seq::<T1>::empty());
        while i < n
            invariant
                n == xs@.len(),
                m == ys@.len(),
                i <= n,
                paired(xs@.take(i as int), ys@, args@),
            decreases n - i,
        {
            let ghost before = args@;
            let mut j: usize = 0;
            while j < m
                invariant
                    n == xs@.len(),
                    m == ys@.len(),
                    i < n,
                    j <= m,
                    args@.len() == before.len() + j,
                    args@.take(before.len() as int) == before,
                    forall|k: int|
                        0 <= k < j ==> cloned(xs@[i as int], #[trigger] args@[before.len() + k].0)
                            && cloned(ys@[k], args@[before.len() + k].1),
                decreases m - j,
            {
                let x = xs[i].clone();
                let y = ys[j].clone();
                args.push((x, y));
                proof {
                    assert(args@.take(before.len() as int) =~= before);
                    assert(args@[before.len() + j as int] == (x, y));
                }
                j = j + 1;
            }
            proof {
                let t = xs@.take(i + 1);
                assert(t.drop_last() =~= xs@.take(i as int));
                assert(t.last() == xs@[i as int]);
                assert(args@.take(args@.len() - m) == before);
                assert forall|k: int| 0 <= k < m implies cloned(
                    t.last(),
                    #[trigger] args@[args@.len() - m + k].0,
                ) && cloned(ys@[k], args@[args@.len() - m + k].1) by {
                    assert(args@.len() - m + k == before.len() + k);
                }
            }
            i = i + 1;
        }
        assert(xs@.take(n as int) =~= xs@);
        args
    }
}

} // verus!
