use crate::names::str_eq;
use vstd::prelude::*;

verus! {

/// A tree of settings read from a resource description: scalars, arrays
/// and objects whose fields are looked up by name.
pub enum Settings {
    Bool(bool),
    I64(i64),
    U64(u64),
    String(String),
    Array(Vec<Settings>),
    Object(Vec<(String, Settings)>),
    Null,
}

/// The value of the first field named `key` among `fields`, if any.
pub open spec fn field_of(fields: Seq<(String, Settings)>, key: Seq<char>) -> Option<Settings>
    decreases fields.len(),
{
    if fields.len() == 0 {
        None
    } else if fields[0].0@ == key {
        Some(fields[0].1)
    } else {
        field_of(fields.drop_first(), key)
    }
}

impl Settings {
    /// The value of field `key` of an object, if it has one.
    pub open spec fn field(self, key: Seq<char>) -> Option<Settings> {
        match self {
            Settings::Object(fields) => field_of(fields@, key),
            _ => None,
        }
    }

    /// The text held by field `key`, when it holds text.
    pub open spec fn string_field(self, key: Seq<char>) -> Option<Seq<char>> {
        match self.field(key) {
            Some(Settings::String(s)) => Some(s@),
            _ => None,
        }
    }

    /// The number held by field `key`, when it holds an integer that fits
    /// in a `u32`.
    pub open spec fn u32_field(self, key: Seq<char>) -> Option<u32> {
        match self.field(key) {
            Some(Settings::I64(v)) => if 0 <= v <= u32::MAX {
                Some(v as u32)
            } else {
                None
            },
            Some(Settings::U64(v)) => if v <= u32::MAX {
                Some(v as u32)
            } else {
                None
            },
            _ => None,
        }
    }

    /// The elements held by field `key`, when it holds an array.
    pub open spec fn array_field(self, key: Seq<char>) -> Option<Seq<Settings>> {
        match self.field(key) {
            Some(Settings::Array(items)) => Some(items@),
            _ => None,
        }
    }

    /// Returns the value of field `key`, if this is an object that has one.
    pub fn get_field(&self, key: &str) -> (res: Option<&Settings>)
        ensures
            res matches Some(v) ==> self.field(key@) == Some(*v),
            res is None ==> self.field(key@) is None,
    {
        match self {
            Settings::Object(fields) => {
                assert(self.field(key@) == field_of(fields@, key@));
                let n = fields.len();
                let mut i: usize = 0;
                assert(fields@.skip(0) =~= fields@);
                while i < n
                    invariant
                        n == fields@.len(),
                        i <= n,
                        field_of(fields@, key@) == field_of(fields@.skip(i as int), key@),
                        self.field(key@) == field_of(fields@, key@),
                    decreases n - i,
                {
                    proof {
                        assert(fields@.skip(i as int)[0] == fields@[i as int]);
                        assert(fields@.skip(i as int).drop_first() =~= fields@.skip(i + 1));
                    }
                    if str_eq(fields[i].0.as_str(), key) {
                        proof {
                            assert(fields@.skip(i as int)[0].0@ == key@);
                            assert(field_of(fields@.skip(i as int), key@) == Some(fields@[i as int].1));
                        }
                        return Some(&fields[i].1);
                    }
                    i = i + 1;
                }
                assert(fields@.skip(n as int) =~= Seq::<(String, Settings)>::empty());
                None
            },
            _ => None,
        }
    }

    /// Returns the text of field `key`, or `default` when the field does not
    /// hold text.
    pub fn get_string(&self, key: &str, default: String) -> (res: String)
        ensures
            res@ == match self.string_field(key@) {
                Some(s) => s,
                None => default@,
            },
    {
        match self.get_field(key) {
            Some(Settings::String(s)) => s.clone(),
            _ => default,
        }
    }

    /// Returns the number of field `key`, or `default` when the field does
    /// not hold an integer that fits in a `u32`.
    pub fn get_u32(&self, key: &str, default: u32) -> (res: u32)
        ensures
            res == match self.u32_field(key@) {
                Some(v) => v,
                None => default,
            },
    {
        match self.get_field(key) {
            Some(Settings::I64(v)) => {
                if 0 <= *v && *v <= 4294967295i64 {
                    *v as u32
                } else {
                    default
                }
            },
            Some(Settings::U64(v)) => {
                if *v <= 4294967295u64 {
                    *v as u32
                } else {
                    default
                }
            },
            _ => default,
        }
    }

    /// Returns the elements of field `key`, none when the field does not
    /// hold an array.
    pub fn get_array(&self, key: &str) -> (res: &[Settings])
        ensures
            res@ == match self.array_field(key@) {
                Some(items) => items,
                None => Seq::<Settings>::empty(),
            },
    {
        match self.get_field(key) {
            Some(Settings::Array(items)) => items.as_slice(),
            _ => {
                let empty: &[Settings] = &[];
                assert(empty@ =~= Seq::<Settings>::empty());
                empty
            },
        }
    }
}

/// A field is looked up by name, the first field of that name winning: when
/// field `i` is the first named `key`, the lookup gives its value.
pub proof fn lemma_first_field_wins(fields: Seq<(String, Settings)>, key: Seq<char>, i: int)
    requires
        0 <= i < fields.len(),
        fields[i].0@ == key,
        forall|j: int| 0 <= j < i ==> (#[trigger] fields[j]).0@ != key,
    ensures
        field_of(fields, key) == Some(fields[i].1),
    decreases i,
{
    if i > 0 {
        let rest = fields.drop_first();
        assert(fields[0].0@ != key);
        assert forall|j: int| 0 <= j < i - 1 implies (#[trigger] rest[j]).0@ != key by {
            assert(rest[j] == fields[j + 1]);
        }
        assert(rest[i - 1] == fields[i]);
        lemma_first_field_wins(rest, key, i - 1);
    }
}

/// A lookup of a name that no field has finds nothing.
pub proof fn lemma_missing_field(fields: Seq<(String, Settings)>, key: Seq<char>)
    requires
        forall|j: int| 0 <= j < fields.len() ==> (#[trigger] fields[j]).0@ != key,
    ensures
        field_of(fields, key) is None,
    decreases fields.len(),
{
    if fields.len() > 0 {
        let rest = fields.drop_first();
        assert(fields[0].0@ != key);
        assert forall|j: int| 0 <= j < rest.len() implies (#[trigger] rest[j]).0@ != key by {
            assert(rest[j] == fields[j + 1]);
        }
        lemma_missing_field(rest, key);
    }
}

/// A field read as a `u32` gives the integer it holds when that integer,
/// signed or not, lies from 0 to `u32::MAX`, and nothing otherwise; a field
/// read as text gives the text it holds, and nothing for any other value.
pub proof fn lemma_typed_fields(settings: Settings, key: Seq<char>)
    ensures
        settings.field(key) matches Some(Settings::I64(v)) ==> (0 <= v <= u32::MAX
            ==> settings.u32_field(key) == Some(v as u32)) && (!(0 <= v <= u32::MAX)
            ==> settings.u32_field(key) is None),
        settings.field(key) matches Some(Settings::U64(v)) ==> (v <= u32::MAX ==> settings.u32_field(
            key,
        ) == Some(v as u32)) && (v > u32::MAX ==> settings.u32_field(key) is None),
        !(settings.field(key) matches Some(Settings::I64(_))) && !(settings.field(
            key,
        ) matches Some(Settings::U64(_))) ==> settings.u32_field(key) is None,
        settings.field(key) matches Some(Settings::String(t)) ==> settings.string_field(key) == Some(
            t@,
        ),
        !(settings.field(key) matches Some(Settings::String(_))) ==> settings.string_field(key) is None,
{
}

} // verus!
