use crate::encodable::Encodable;
use crate::names::str_eq;
use vstd::prelude::*;

verus! {

/// The identifier of an entity.
pub type EntityId = u64;

/// A component type whose name is known without an instance.
pub trait StaticComponent {
    /// The class name of every component of this type.
    spec fn component_name() -> Seq<char>;

    /// Returns the class type name.
    fn get_component_name() -> (name: String)
        ensures
            name@ == Self::component_name(),
    ;
}

/// A component: a value with a class name and a byte image that the
/// archetypes store.
pub trait Component: Encodable {
    /// The class name of the component.
    spec fn class_name(&self) -> Seq<char>;

    /// Returns the class name of the component.
    fn get_class_name(&self) -> (name: String)
        ensures
            name@ == self.class_name(),
    ;
}

/// A component whose concrete type is no longer known: its class name and
/// its encoded state.
pub struct AnyComponent {
    pub class_name: String,
    pub data: Vec<u8>,
}

impl View for AnyComponent {
    type V = (Seq<char>, Seq<u8>);

    /// The class name and the encoded state.
    open spec fn view(&self) -> (Seq<char>, Seq<u8>) {
        (self.class_name@, self.data@)
    }
}

impl Clone for AnyComponent {
    fn clone(&self) -> (res: Self)
        ensures
            res@ == self@,
    {
        let data = self.data.clone();
        assert(data@ =~= self.data@);
        AnyComponent { class_name: self.class_name.clone(), data }
    }
}

impl Encodable for AnyComponent {
    open spec fn encoding(&self) -> Seq<u8> {
        self.data@
    }

    fn encode_size(&self) -> (size: usize) {
        self.data.len()
    }

    fn encode(&self, buffer: &mut [u8]) {
        let n = self.data.len();
        let mut i: usize = 0;
        while i < n
            invariant
                n == self.data@.len(),
                buffer@.len() == n,
                i <= n,
                forall|j: int| 0 <= j < i ==> buffer@[j] == self.data@[j],
            decreases n - i,
        {
            buffer[i] = self.data[i];
            i = i + 1;
        }
        assert(buffer@ =~= self.data@);
    }
}

impl Component for AnyComponent {
    open spec fn class_name(&self) -> Seq<char> {
        self.class_name@
    }

    fn get_class_name(&self) -> (name: String) {
        self.class_name.clone()
    }
}

impl AnyComponent {
    /// Returns an AnyComponent holding the class name and the encoding of
    /// `component`.
    pub fn new<C: Component>(component: C) -> (res: AnyComponent)
        ensures
            res.class_name@ == component.class_name(),
            res.data@ == component.encoding(),
    {
        let class_name = component.get_class_name();
        let size = component.encode_size();
        let mut data: Vec<u8> = vec![0u8; size];
        component.encode(data.as_mut_slice());
        AnyComponent { class_name, data }
    }

    /// Returns an AnyComponent from a boxed component.
    pub fn from_box<C: Component>(component: Box<C>) -> (res: AnyComponent)
        ensures
            res.class_name@ == component.class_name(),
            res.data@ == component.encoding(),
    {
        AnyComponent::new(*component)
    }

    /// Returns the component in a box.
    pub fn into_box(self) -> (res: Box<AnyComponent>)
        ensures
            *res == self,
    {
        Box::new(self)
    }
}

/// The class names of the components of an entity, in the order of its
/// components.
pub struct EntityTypeIdentifier(pub Vec<String>);

impl View for EntityTypeIdentifier {
    type V = Seq<Seq<char>>;

    open spec fn view(&self) -> Seq<Seq<char>> {
        self.0@.map_values(|name: String| name@)
    }
}

impl Clone for EntityTypeIdentifier {
    fn clone(&self) -> (res: Self)
        ensures
            res@ == self@,
    {
        EntityTypeIdentifier(self.0.clone())
    }
}

/// The class names of a sequence of components.
pub open spec fn class_names(components: Seq<AnyComponent>) -> Seq<Seq<char>> {
    components.map_values(|c: AnyComponent| c.class_name@)
}

/// Returns the identifier made of the class names of `components`.
pub fn get_type_identifier_by_any(components: &Vec<AnyComponent>) -> (id: EntityTypeIdentifier)
    ensures
        id@ == class_names(components@),
{
    let mut names: Vec<String> = Vec::new();
    let n = components.len();
    let mut i: usize = 0;
    while i < n
        invariant
            n == components@.len(),
            i <= n,
            names@.len() == i,
            forall|j: int| 0 <= j < i ==> #[trigger] names@[j]@ == components@[j].class_name@,
        decreases n - i,
    {
        names.push(components[i].class_name.clone());
        i = i + 1;
    }
    let id = EntityTypeIdentifier(names);
    assert(id@ =~= class_names(components@));
    id
}

impl EntityTypeIdentifier {
    /// Returns whether one of the components is of class `class_name`.
    pub fn contains(&self, class_name: &str) -> (found: bool)
        ensures
            found == self@.contains(class_name@),
    {
        let n = self.0.len();
        let mut i: usize = 0;
        while i < n
            invariant
                n == self@.len(),
                i <= n,
                forall|j: int| 0 <= j < i ==> self@[j] != class_name@,
            decreases n - i,
        {
            if str_eq(self.0[i].as_str(), class_name) {
                assert(self@[i as int] == class_name@);
                return true;
            }
            i = i + 1;
        }
        false
    }

    /// Returns whether every class name of `other` occurs in this identifier.
    pub fn contains_all(&self, other: &EntityTypeIdentifier) -> (found: bool)
        ensures
            found == (forall|j: int| 0 <= j < other@.len() ==> self@.contains(#[trigger] other@[j])),
    {
        let n = other.0.len();
        let mut i: usize = 0;
        while i < n
            invariant
                n == other@.len(),
                i <= n,
                forall|j: int| 0 <= j < i ==> self@.contains(#[trigger] other@[j]),
            decreases n - i,
        {
            if !self.contains(other.0[i].as_str()) {
                assert(other@[i as int] == other.0@[i as int]@);
                return false;
            }
            i = i + 1;
        }
        true
    }

    /// Returns whether both identifiers list the same class names in the
    /// same order.
    pub fn equals(&self, other: &EntityTypeIdentifier) -> (equal: bool)
        ensures
            equal == (self@ == other@),
    {
        let n = self.0.len();
        if n != other.0.len() {
            return false;
        }
        let mut i: usize = 0;
        while i < n
            invariant
                n == self@.len(),
                n == other@.len(),
                i <= n,
                forall|j: int| 0 <= j < i ==> self@[j] == other@[j],
            decreases n - i,
        {
            if !str_eq(self.0[i].as_str(), other.0[i].as_str()) {
                assert(self@[i as int] != other@[i as int]);
                return false;
            }
            i = i + 1;
        }
        assert(self@ =~= other@);
        true
    }
}

} // verus!
