//! The value tree of a JSON document and its mathematical model.

use vstd::prelude::*;

verus! {

/// An exact decimal number: `mantissa * 10^exponent`, negated if `negative`.
///
/// The sign is kept apart from the mantissa, so `-0` differs from `0`.
#[derive(Debug, Clone, Copy, PartialEq, Eq, Structural)]
pub struct Number {
    pub negative: bool,
    pub mantissa: u64,
    pub exponent: i64,
}

/// The members of an object in the order in which their keys first occurred.
#[derive(Debug, PartialEq)]
pub struct Object(pub Vec<(String, JsonValue)>);

/// The elements of an array, in order.
#[derive(Debug, PartialEq)]
pub struct Array(pub Vec<JsonValue>);

/// A JSON document.
#[derive(Debug, PartialEq)]
pub enum JsonValue {
    Object(Object),
    Array(Array),
    String(String),
    Number(Number),
    Boolean(bool),
    Null,
}

/// The mathematical value of a [`JsonValue`].
pub ghost enum JsonModel {
    Object(Seq<(Seq<char>, JsonModel)>),
    Array(Seq<JsonModel>),
    String(Seq<char>),
    Number(Number),
    Boolean(bool),
    Null,
}

/// The models of a sequence of values, in order.
pub open spec fn values_view(vs: Seq<JsonValue>) -> Seq<JsonModel>
    decreases vs, 0int,
{
    Seq::new(vs.len(), |i: int| if 0 <= i < vs.len() { value_view(vs[i]) } else { JsonModel::Null })
}

/// The models of a sequence of members, in order.
pub open spec fn members_view(ms: Seq<(String, JsonValue)>) -> Seq<(Seq<char>, JsonModel)>
    decreases ms, 0int,
{
    Seq::new(
        ms.len(),
        |i: int| if 0 <= i < ms.len() { (ms[i].0@, value_view(ms[i].1)) } else { (Seq::empty(), JsonModel::Null) },
    )
}

/// The model of a value.
pub open spec fn value_view(v: JsonValue) -> JsonModel
    decreases v, 1int,
{
    match v {
        JsonValue::Object(o) => JsonModel::Object(members_view(o.0@)),
        JsonValue::Array(a) => JsonModel::Array(values_view(a.0@)),
        JsonValue::String(s) => JsonModel::String(s@),
        JsonValue::Number(n) => JsonModel::Number(n),
        JsonValue::Boolean(b) => JsonModel::Boolean(b),
        JsonValue::Null => JsonModel::Null,
    }
}

impl View for JsonValue {
    type V = JsonModel;

    open spec fn view(&self) -> JsonModel {
        value_view(*self)
    }
}

impl View for Array {
    type V = Seq<JsonModel>;

    open spec fn view(&self) -> Seq<JsonModel> {
        values_view(self.0@)
    }
}

impl View for Object {
    type V = Seq<(Seq<char>, JsonModel)>;

    open spec fn view(&self) -> Seq<(Seq<char>, JsonModel)> {
        members_view(self.0@)
    }
}

/// The variant of a value.
#[derive(Debug, Clone, Copy, PartialEq, Eq, Structural)]
pub enum ValueKind {
    Object,
    Array,
    String,
    Number,
    Boolean,
    Null,
}

/// A value was asked for as one variant and is another.
#[derive(Debug, Clone, Copy, PartialEq, Eq, Structural)]
pub struct TypeMismatch {
    pub expected: ValueKind,
    pub found: ValueKind,
}

/// Whether no two members have the same key.
pub open spec fn keys_unique(ms: Seq<(Seq<char>, JsonModel)>) -> bool {
    forall|i: int, j: int| 0 <= i < j < ms.len() ==> ms[i].0 != ms[j].0
}

impl JsonModel {
    /// Whether no object in this value has two members with the same key.
    pub open spec fn well_formed(self) -> bool
        decreases self,
    {
        match self {
            JsonModel::Object(ms) => keys_unique(ms) && forall|i: int|
                0 <= i < ms.len() ==> (#[trigger] ms[i]).1.well_formed(),
            JsonModel::Array(vs) => forall|i: int| 0 <= i < vs.len() ==> (#[trigger] vs[i]).well_formed(),
            _ => true,
        }
    }

    /// Whether arrays and objects are nested at most `budget` levels deep.
    pub open spec fn fits(self, budget: nat) -> bool
        decreases self,
    {
        match self {
            JsonModel::Object(ms) => budget > 0 && forall|i: int|
                0 <= i < ms.len() ==> (#[trigger] ms[i]).1.fits((budget - 1) as nat),
            JsonModel::Array(vs) => budget > 0 && forall|i: int|
                0 <= i < vs.len() ==> (#[trigger] vs[i]).fits((budget - 1) as nat),
            _ => true,
        }
    }

    pub open spec fn kind(self) -> ValueKind {
        match self {
            JsonModel::Object(_) => ValueKind::Object,
            JsonModel::Array(_) => ValueKind::Array,
            JsonModel::String(_) => ValueKind::String,
            JsonModel::Number(_) => ValueKind::Number,
            JsonModel::Boolean(_) => ValueKind::Boolean,
            JsonModel::Null => ValueKind::Null,
        }
    }
}

/// The first index at or after `from` whose member has the key `key`;
/// `ms.len()` if there is none.
pub open spec fn key_index(ms: Seq<(Seq<char>, JsonModel)>, key: Seq<char>, from: int) -> int
    decreases ms.len() - from,
{
    if from < 0 || from >= ms.len() {
        ms.len() as int
    } else if ms[from].0 == key {
        from
    } else {
        key_index(ms, key, from + 1)
    }
}

impl Object {
    /// The number of members.
    pub fn len(&self) -> (r: usize)
        ensures
            r == self@.len(),
    {
        self.0.len()
    }

    /// The value of the first member whose key is `key`.
    pub fn get(&self, key: &str) -> (r: Option<&JsonValue>)
        ensures
            match r {
                Some(v) => key_index(self@, key@, 0) < self@.len() && v@ == self@[key_index(
                    self@,
                    key@,
                    0,
                )].1,
                None => key_index(self@, key@, 0) == self@.len(),
            },
    {
        let wanted: String = key.to_owned();
        let n: usize = self.0.len();
        let mut k: usize = 0;
        while k < n
            invariant
                k <= n,
                n == self.0@.len(),
                wanted@ == key@,
                key_index(self@, key@, 0) == key_index(self@, key@, k as int),
            decreases n - k,
        {
            assert(self@[k as int].0 == self.0@[k as int].0@);
            if self.0[k].0 == wanted {
                assert(self@[k as int].1 == self.0@[k as int].1@);
                return Some(&self.0[k].1);
            }
            k += 1;
        }
        None
    }
}

impl Array {
    /// The number of elements.
    pub fn len(&self) -> (r: usize)
        ensures
            r == self@.len(),
    {
        self.0.len()
    }

    /// The element at `index`, if there is one.
    pub fn get(&self, index: usize) -> (r: Option<&JsonValue>)
        ensures
            match r {
                Some(v) => index < self@.len() && v@ == self@[index as int],
                None => index >= self@.len(),
            },
    {
        if index < self.0.len() {
            Some(&self.0[index])
        } else {
            None
        }
    }
}

impl JsonValue {
    /// Which variant this value is.
    pub fn kind(&self) -> (r: ValueKind)
        ensures
            r == self@.kind(),
    {
        match self {
            JsonValue::Object(_) => ValueKind::Object,
            JsonValue::Array(_) => ValueKind::Array,
            JsonValue::String(_) => ValueKind::String,
            JsonValue::Number(_) => ValueKind::Number,
            JsonValue::Boolean(_) => ValueKind::Boolean,
            JsonValue::Null => ValueKind::Null,
        }
    }

    /// The members, if this is an object.
    pub fn as_object(&self) -> (r: Result<&Object, TypeMismatch>)
        ensures
            match *self {
                JsonValue::Object(o) => r == Ok::<&Object, TypeMismatch>(&o),
                _ => r == Err::<&Object, TypeMismatch>(
                    TypeMismatch { expected: ValueKind::Object, found: self@.kind() },
                ),
            },
    {
        match self {
            JsonValue::Object(o) => Ok(o),
            _ => Err(TypeMismatch { expected: ValueKind::Object, found: self.kind() }),
        }
    }

    /// The elements, if this is an array.
    pub fn as_array(&self) -> (r: Result<&Array, TypeMismatch>)
        ensures
            match *self {
                JsonValue::Array(a) => r == Ok::<&Array, TypeMismatch>(&a),
                _ => r == Err::<&Array, TypeMismatch>(
                    TypeMismatch { expected: ValueKind::Array, found: self@.kind() },
                ),
            },
    {
        match self {
            JsonValue::Array(a) => Ok(a),
            _ => Err(TypeMismatch { expected: ValueKind::Array, found: self.kind() }),
        }
    }

    /// The text, if this is a string.
    pub fn as_string(&self) -> (r: Result<&String, TypeMismatch>)
        ensures
            match *self {
                JsonValue::String(s) => r == Ok::<&String, TypeMismatch>(&s),
                _ => r == Err::<&String, TypeMismatch>(
                    TypeMismatch { expected: ValueKind::String, found: self@.kind() },
                ),
            },
    {
        match self {
            JsonValue::String(s) => Ok(s),
            _ => Err(TypeMismatch { expected: ValueKind::String, found: self.kind() }),
        }
    }

    /// The number, if this is a number.
    pub fn as_number(&self) -> (r: Result<Number, TypeMismatch>)
        ensures
            match *self {
                JsonValue::Number(n) => r == Ok::<Number, TypeMismatch>(n),
                _ => r == Err::<Number, TypeMismatch>(
                    TypeMismatch { expected: ValueKind::Number, found: self@.kind() },
                ),
            },
    {
        match self {
            JsonValue::Number(n) => Ok(*n),
            _ => Err(TypeMismatch { expected: ValueKind::Number, found: self.kind() }),
        }
    }

    /// The truth value, if this is a boolean.
    pub fn as_boolean(&self) -> (r: Result<bool, TypeMismatch>)
        ensures
            match *self {
                JsonValue::Boolean(b) => r == Ok::<bool, TypeMismatch>(b),
                _ => r == Err::<bool, TypeMismatch>(
                    TypeMismatch { expected: ValueKind::Boolean, found: self@.kind() },
                ),
            },
    {
        match self {
            JsonValue::Boolean(b) => Ok(*b),
            _ => Err(TypeMismatch { expected: ValueKind::Boolean, found: self.kind() }),
        }
    }

    /// Whether this is `null`.
    pub fn is_null(&self) -> (r: bool)
        ensures
            r == (self@ == JsonModel::Null),
    {
        match self {
            JsonValue::Null => true,
            _ => false,
        }
    }
}

} // verus!
