//! JSON values as the schema walk reads them.

use vstd::prelude::*;

verus! {

/// A JSON number, told apart by the way it is held.
#[derive(Debug)]
pub enum JsonNumber {
    /// An integer in the range of `i64`.
    Int(i64),
    /// An integer above `i64::MAX`.
    Unsigned(u64),
    /// Any other number, as the bit pattern of its 64-bit float.
    Float(u64),
}

/// A JSON value. The fields of an object are kept in the order given.
#[derive(Debug)]
pub enum JsonValue {
    Null,
    Bool(bool),
    Number(JsonNumber),
    String(String),
    Array(Vec<JsonValue>),
    Object(Vec<(String, JsonValue)>),
}

/// A key path: the field names that lead from a document's root to a value.
pub type Path = Seq<Seq<char>>;

impl JsonValue {
    /// The fields of an object; no fields for any other value.
    pub open spec fn entries(self) -> Seq<(String, JsonValue)> {
        match self {
            JsonValue::Object(entries) => entries@,
            _ => Seq::empty(),
        }
    }

    /// The elements of an array; no elements for any other value.
    pub open spec fn elements(self) -> Seq<JsonValue> {
        match self {
            JsonValue::Array(items) => items@,
            _ => Seq::empty(),
        }
    }

    /// Whether the value is an object with a field named `key`.
    pub open spec fn has_field(self, key: Seq<char>) -> bool {
        exists|i: int| 0 <= i < self.entries().len() && (#[trigger] self.entries()[i]).0@ == key
    }

    /// The position of a field named `key`.
    pub open spec fn field_index(self, key: Seq<char>) -> int {
        choose|i: int| 0 <= i < self.entries().len() && (#[trigger] self.entries()[i]).0@ == key
    }

    /// The value found by following `path` through nested objects.
    pub open spec fn at(self, path: Path) -> Option<JsonValue>
        decreases path.len(),
    {
        if path.len() == 0 {
            Some(self)
        } else if self.has_field(path[0]) {
            self.entries()[self.field_index(path[0])].1.at(path.skip(1))
        } else {
            None
        }
    }

    /// No object reachable through object fields names a field twice.
    pub open spec fn wf(self) -> bool
        decreases self,
    {
        match self {
            JsonValue::Object(entries) => {
                &&& forall|i: int, j: int|
                    0 <= i < j < entries@.len() ==> (#[trigger] entries@[i]).0@ != (
                    #[trigger] entries@[j]).0@
                &&& forall|i: int| 0 <= i < entries@.len() ==> (#[trigger] entries@[i]).1.wf()
            },
            _ => true,
        }
    }
}

/// In a well-formed object the field at position `i` is the one found by
/// its name, and a path that starts with its name leads through it.
pub proof fn lemma_field_step(value: JsonValue, i: int, p: Path)
    requires
        value.wf(),
        0 <= i < value.entries().len(),
        p.len() > 0,
        p[0] == value.entries()[i].0@,
    ensures
        value.has_field(p[0]),
        value.field_index(p[0]) == i,
        value.at(p) == value.entries()[i].1.at(p.skip(1)),
{
}

impl JsonValue {
    /// Whether no object reachable through object fields names a field
    /// twice.
    #[verifier::loop_isolation(false)]
    pub fn is_wf(&self) -> (r: bool)
        ensures
            r == self.wf(),
        decreases self,
    {
        match self {
            JsonValue::Object(entries) => {
                let mut j: usize = 0;
                while j < entries.len()
                    invariant
                        j <= entries@.len(),
                        *self == JsonValue::Object(*entries),
                        forall|a: int, b: int|
                            0 <= a < b < j ==> (#[trigger] entries@[a]).0@ != (
                            #[trigger] entries@[b]).0@,
                        forall|a: int| 0 <= a < j ==> (#[trigger] entries@[a]).1.wf(),
                    decreases entries@.len() - j,
                {
                    let mut i: usize = 0;
                    while i < j
                        invariant
                            i <= j < entries@.len(),
                            forall|a: int|
                                0 <= a < i ==> (#[trigger] entries@[a]).0@ != entries@[j as int].0@,
                        decreases j - i,
                    {
                        if entries[i].0 == entries[j].0 {
                            return false;
                        }
                        i += 1;
                    }
                    if !entries[j].1.is_wf() {
                        return false;
                    }
                    j += 1;
                }
                true
            },
            _ => true,
        }
    }
}

} // verus!
