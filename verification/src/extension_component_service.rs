use crate::component::{AnyComponent, Component, StaticComponent};
use crate::grouping::{
    assoc_keys,
    assoc_map,
    file_group,
    group_entries,
    keys_sorted,
    lemma_assoc_map_sorted,
};
use crate::names::str_eq;
use vstd::prelude::*;

verus! {

/// A service to store components extensions
/// When a component is created, if an extension is registered, an other
/// component with a given type is created, this can be use if ou want to
/// extend already existing components with other attributes. This is for
/// example used into the physic engine implementations.
///
/// Each extension is kept as the component that the default value of its
/// type encodes to; the extensions of a class are filed under its name, in
/// name order.
///
/// Warning: The same extension type cannot be shared across multiple based
/// component types
pub struct ExtensionComponentService {
    extension_constructors: Vec<(String, Vec<AnyComponent>)>,
}

/// The class names and encoded states of components.
pub open spec fn component_views(components: Seq<AnyComponent>) -> Seq<(Seq<char>, Seq<u8>)> {
    components.map_values(|c: AnyComponent| c@)
}

impl View for ExtensionComponentService {
    type V = Map<Seq<char>, Seq<(Seq<char>, Seq<u8>)>>;

    /// The extensions registered for each class name.
    closed spec fn view(&self) -> Map<Seq<char>, Seq<(Seq<char>, Seq<u8>)>> {
        assoc_map(group_entries(self.extension_constructors@)).map_values(
            |s: Seq<AnyComponent>| component_views(s),
        )
    }
}

/// The extensions registered for `name` in `m`, none if there are none.
pub open spec fn extensions_of(m: Map<Seq<char>, Seq<(Seq<char>, Seq<u8>)>>, name: Seq<char>) -> Seq<
    (Seq<char>, Seq<u8>),
> {
    if m.contains_key(name) {
        m[name]
    } else {
        Seq::empty()
    }
}

impl ExtensionComponentService {
    /// The class names are in name order, each once.
    pub closed spec fn wf(&self) -> bool {
        keys_sorted(assoc_keys(group_entries(self.extension_constructors@)))
    }

    /// Returns an ExtensionComponentService
    pub fn new() -> (res: Self)
        ensures
            res.wf(),
            res@ == Map::<Seq<char>, Seq<(Seq<char>, Seq<u8>)>>::empty(),
    {
        let res = Self { extension_constructors: Vec::new() };
        assert(group_entries(res.extension_constructors@) =~= Seq::empty());
        assert(res@ =~= Map::<Seq<char>, Seq<(Seq<char>, Seq<u8>)>>::empty());
        res
    }

    /// The position of the extensions of `name`, if any are registered.
    fn find(&self, name: &str) -> (res: Option<usize>)
        requires
            self.wf(),
        ensures
            res matches Some(i) ==> i < self.extension_constructors@.len()
                && self.extension_constructors@[i as int].0@ == name@ && self@.contains_key(name@)
                && self@[name@] == component_views(self.extension_constructors@[i as int].1@),
            res is None ==> !self@.contains_key(name@),
    {
        let ghost entries = group_entries(self.extension_constructors@);
        proof {
            lemma_assoc_map_sorted(entries);
        }
        let n = self.extension_constructors.len();
        let mut i: usize = 0;
        while i < n
            invariant
                n == entries.len(),
                self.wf(),
                entries == group_entries(self.extension_constructors@),
                i <= n,
                forall|j: int| 0 <= j < i ==> (#[trigger] entries[j]).0 != name@,
            decreases n - i,
        {
            if str_eq(self.extension_constructors[i].0.as_str(), name) {
                proof {
                    lemma_assoc_map_sorted(entries);
                    assert(entries[i as int].0 == name@);
                    assert(assoc_keys(entries)[i as int] == name@);
                    assert(assoc_map(entries)[entries[i as int].0] == entries[i as int].1);
                    assert(assoc_map(entries).contains_key(name@));
                    assert(self@.contains_key(name@));
                    assert(self@[name@] == component_views(assoc_map(entries)[name@]));
                }
                return Some(i);
            }
            i = i + 1;
        }
        proof {
            lemma_assoc_map_sorted(entries);
            if assoc_keys(entries).contains(name@) {
                let j = choose|j: int| 0 <= j < n && assoc_keys(entries)[j] == name@;
                assert(entries[j].0 == name@);
            }
        }
        None
    }

    /// Register a component extension: components of class `T` then get,
    /// after the extensions registered before, one made by `E::default()`
    pub fn register<T: StaticComponent, E: Component + Default>(&mut self)
        requires
            old(self).wf(),
        ensures
            final(self).wf(),
            final(self)@ == old(self)@.insert(
                T::component_name(),
                extensions_of(old(self)@, T::component_name()).push(
                    final(self)@[T::component_name()].last(),
                ),
            ),
            exists|e: E|
                #[trigger] call_ensures(E::default, (), e) && final(self)@[T::component_name()].last()
                    == (e.class_name(), e.encoding()),
    {
        let name = T::get_component_name();
        let extension = E::default();
        let prototype = AnyComponent::new(extension);
        let ghost p = prototype;
        let mut constructors: Vec<AnyComponent> = match self.find(name.as_str()) {
            Some(i) => clone_components(&self.extension_constructors[i].1),
            None => Vec::new(),
        };
        proof {
            assert(component_views(constructors@) =~= extensions_of(old(self)@, name@));
        }
        constructors.push(prototype);
        let ghost pushed = constructors@;
        file_group(&mut self.extension_constructors, name, constructors);
        proof {
            let before = assoc_map(group_entries(old(self).extension_constructors@));
            let after = assoc_map(group_entries(self.extension_constructors@));
            assert(after == before.insert(name@, pushed));
            assert(component_views(pushed) =~= extensions_of(old(self)@, name@).push(p@));
            assert(self@ =~= old(self)@.insert(name@, component_views(pushed)));
            assert(self@[name@].last() == p@);
        }
    }

    /// Create extensions from a component
    pub fn get_component_extension<C: Component>(&self, component: &C) -> (res: Vec<AnyComponent>)
        requires
            self.wf(),
        ensures
            component_views(res@) == extensions_of(self@, component.class_name()),
    {
        let class_name = component.get_class_name();
        match self.find(class_name.as_str()) {
            Some(i) => clone_components(&self.extension_constructors[i].1),
            None => Vec::new(),
        }
    }
}

/// A copy of the components.
fn clone_components(components: &Vec<AnyComponent>) -> (res: Vec<AnyComponent>)
    ensures
        component_views(res@) == component_views(components@),
{
    let mut res: Vec<AnyComponent> = Vec::new();
    let n = components.len();
    let mut i: usize = 0;
    while i < n
        invariant
            n == components@.len(),
            i <= n,
            res@.len() == i,
            component_views(res@) == component_views(components@.take(i as int)),
        decreases n - i,
    {
        let c = components[i].clone();
        let ghost before = res@;
        res.push(c);
        assert forall|j: int| 0 <= j < i + 1 implies #[trigger] component_views(res@)[j]
            == component_views(components@.take(i + 1))[j] by {
            if j < i {
                assert(res@[j] == before[j]);
                assert(component_views(before)[j] == component_views(components@.take(i as int))[j]);
            }
        }
        assert(component_views(res@) =~= component_views(components@.take(i + 1)));
        i = i + 1;
    }
    assert(components@.take(n as int) =~= components@);
    res
}


/// Once an extension is registered for the class `name`, a component of
/// that class gets the extensions it got before and the new one last; a
/// component of another class gets the same extensions as before.
pub proof fn lemma_register_then_get(
    before: Map<Seq<char>, Seq<(Seq<char>, Seq<u8>)>>,
    after: Map<Seq<char>, Seq<(Seq<char>, Seq<u8>)>>,
    name: Seq<char>,
    other: Seq<char>,
)
    requires
        after == before.insert(name, extensions_of(before, name).push(after[name].last())),
    ensures
        extensions_of(after, name) == extensions_of(before, name).push(after[name].last()),
        extensions_of(after, name).len() == extensions_of(before, name).len() + 1,
        other != name ==> extensions_of(after, other) == extensions_of(before, other),
{
}

} // verus!
