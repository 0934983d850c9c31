//! Per-path statistics on the kinds of value seen.

use crate::json::{JsonNumber, JsonValue};
use crate::text::{decimal, join, join_with, push_decimal, texts};
use std::collections::HashSet;
use std::hash::Hash;
use vstd::prelude::*;
use vstd::std_specs::hash::obeys_key_model;
use vstd::std_specs::iter::IteratorSpec;
use vstd::string::*;

verus! {

/// What a [`KMTypes`] holds: for each kind of value the documents in which it
/// was seen, and what more is kept of numbers and arrays.
#[verifier::ext_equal]
pub struct Stats {
    pub null: Set<u64>,
    pub bool_true: Set<u64>,
    pub bool_false: Set<u64>,
    pub string: Set<u64>,
    pub number: Set<u64>,
    pub ints: Set<i64>,
    pub floats: Set<u64>,
    /// Least and greatest length of the arrays seen, if any was seen.
    pub lens: Option<(nat, nat)>,
    /// Statistics of the elements of all arrays seen, if any had an element.
    pub items: Option<Box<Stats>>,
    pub object: Set<u64>,
}

/// The bounds that cover both `a` and `b`.
pub open spec fn widen(a: Option<(nat, nat)>, b: Option<(nat, nat)>) -> Option<(nat, nat)> {
    match (a, b) {
        (Some(x), Some(y)) => Some(
            (if x.0 <= y.0 { x.0 } else { y.0 }, if x.1 >= y.1 { x.1 } else { y.1 }),
        ),
        (Some(x), None) => Some(x),
        (None, y) => y,
    }
}

impl Stats {
    /// Nothing seen.
    pub open spec fn empty() -> Stats {
        Stats {
            null: Set::empty(),
            bool_true: Set::empty(),
            bool_false: Set::empty(),
            string: Set::empty(),
            number: Set::empty(),
            ints: Set::empty(),
            floats: Set::empty(),
            lens: None,
            items: None,
            object: Set::empty(),
        }
    }

    /// Everything seen by either: the union of each set, the bounds widened,
    /// the element statistics merged in the same way.
    pub open spec fn merge(self, other: Stats) -> Stats
        decreases self,
    {
        Stats {
            null: self.null + other.null,
            bool_true: self.bool_true + other.bool_true,
            bool_false: self.bool_false + other.bool_false,
            string: self.string + other.string,
            number: self.number + other.number,
            ints: self.ints + other.ints,
            floats: self.floats + other.floats,
            lens: widen(self.lens, other.lens),
            items: match (self.items, other.items) {
                (Some(a), Some(b)) => Some(Box::new(a.merge(*b))),
                (Some(a), None) => Some(a),
                (None, b) => b,
            },
            object: self.object + other.object,
        }
    }

    /// What one value seen in document `doc` contributes.
    pub open spec fn single(doc: u64, value: JsonValue) -> Stats
        decreases value, value.elements().len() + 1,
    {
        match value {
            JsonValue::Null => Stats { null: set![doc], ..Stats::empty() },
            JsonValue::Bool(true) => Stats { bool_true: set![doc], ..Stats::empty() },
            JsonValue::Bool(false) => Stats { bool_false: set![doc], ..Stats::empty() },
            JsonValue::Number(JsonNumber::Int(i)) => Stats {
                number: set![doc],
                ints: set![i],
                ..Stats::empty()
            },
            JsonValue::Number(JsonNumber::Unsigned(_)) => Stats {
                number: set![doc],
                ..Stats::empty()
            },
            JsonValue::Number(JsonNumber::Float(bits)) => Stats {
                number: set![doc],
                floats: set![bits],
                ..Stats::empty()
            },
            JsonValue::String(_) => Stats { string: set![doc], ..Stats::empty() },
            JsonValue::Array(items) => Stats {
                lens: Some((items@.len(), items@.len())),
                items: Stats::elements(doc, value, items@.len()),
                ..Stats::empty()
            },
            JsonValue::Object(_) => Stats { object: set![doc], ..Stats::empty() },
        }
    }

    /// What the first `n` elements of the array `array` contribute together,
    /// or `None` for no element.
    pub open spec fn elements(doc: u64, array: JsonValue, n: nat) -> Option<Box<Stats>>
        decreases array, n,
    {
        if n == 0 || n > array.elements().len() {
            None
        } else {
            let item = Stats::single(doc, array.elements()[n - 1]);
            match Stats::elements(doc, array, (n - 1) as nat) {
                Some(before) => Some(Box::new(before.merge(item))),
                None => Some(Box::new(item)),
            }
        }
    }
}

/// Adds every element of `src` to `dst`.
fn union_into<K: Copy + Eq + Hash>(dst: &mut HashSet<K>, src: &HashSet<K>)
    requires
        obeys_key_model::<K>(),
    ensures
        final(dst)@ == old(dst)@ + src@,
{
    broadcast use vstd::std_specs::hash::group_hash_axioms;

    let ghost keys = src.iter().remaining();
    let ghost mut n: int = 0;
    for k in it: src.iter()
        invariant
            obeys_key_model::<K>(),
            it.seq() == keys,
            n == it.index(),
            keys.unref().to_set() == src@,
            forall|x: K| #[trigger]
                dst@.contains(x) <==> old(dst)@.contains(x) || exists|j: int|
                    0 <= j < n && *(#[trigger] keys[j]) == x,
    {
        dst.insert(*k);
        proof {
            n = n + 1;
        }
    }
    assert forall|x: K| #[trigger] dst@.contains(x) <==> (old(dst)@ + src@).contains(x) by {
        if exists|j: int| 0 <= j < n && *(#[trigger] keys[j]) == x {
            let j = choose|j: int| 0 <= j < n && *(#[trigger] keys[j]) == x;
            assert(keys.unref()[j] == x);
            assert(keys.unref().contains(x));
        }
        if src@.contains(x) {
            assert(keys.unref().contains(x));
            let j = choose|j: int| 0 <= j < keys.unref().len() && keys.unref()[j] == x;
            assert(*keys[j] == x);
        }
    }
}

/// The documents in which `null` was seen.
#[derive(Debug)]
pub struct KMNull {
    pub files: HashSet<u64>,
}

impl KMNull {
    pub fn new() -> (r: Self)
        ensures
            r.files@ == Set::<u64>::empty(),
    {
        Self { files: HashSet::new() }
    }

    pub fn merge(&mut self, other: Self)
        ensures
            final(self).files@ == old(self).files@ + other.files@,
    {
        broadcast use vstd::std_specs::hash::group_hash_axioms;

        union_into(&mut self.files, &other.files);
    }

    pub fn is_empty(&self) -> (r: bool)
        ensures
            r == self.files@.is_empty(),
    {
        self.files.is_empty()
    }

    pub fn count(&self) -> (r: usize)
        ensures
            r == self.files@.len(),
    {
        broadcast use vstd::std_specs::hash::group_hash_axioms;

        self.files.len()
    }
}

/// The documents in which `true` was seen, and those in which `false` was.
#[derive(Debug)]
pub struct KMBool {
    pub t: HashSet<u64>,
    pub f: HashSet<u64>,
}

impl KMBool {
    pub fn new() -> (r: Self)
        ensures
            r.t@ == Set::<u64>::empty(),
            r.f@ == Set::<u64>::empty(),
    {
        Self { t: HashSet::new(), f: HashSet::new() }
    }

    pub fn merge(&mut self, other: Self)
        ensures
            final(self).t@ == old(self).t@ + other.t@,
            final(self).f@ == old(self).f@ + other.f@,
    {
        broadcast use vstd::std_specs::hash::group_hash_axioms;

        union_into(&mut self.f, &other.f);
        union_into(&mut self.t, &other.t);
    }

    pub fn is_empty(&self) -> (r: bool)
        ensures
            r == (self.t@.is_empty() && self.f@.is_empty()),
    {
        self.t.is_empty() && self.f.is_empty()
    }

    /// The number of sightings: a document counts once for `true` and once
    /// for `false`.
    pub fn count(&self) -> (r: usize)
        requires
            self.t@.len() + self.f@.len() <= usize::MAX,
        ensures
            r == self.t@.len() + self.f@.len(),
    {
        broadcast use vstd::std_specs::hash::group_hash_axioms;

        self.t.len() + self.f.len()
    }
}

/// The documents in which a number was seen, with the distinct integers and
/// the distinct bit patterns of the other numbers.
#[derive(Debug)]
pub struct KMNumber {
    pub files: HashSet<u64>,
    pub int: HashSet<i64>,
    pub float: HashSet<u64>,
}

impl KMNumber {
    pub fn new() -> (r: Self)
        ensures
            r.files@ == Set::<u64>::empty(),
            r.int@ == Set::<i64>::empty(),
            r.float@ == Set::<u64>::empty(),
    {
        Self { files: HashSet::new(), int: HashSet::new(), float: HashSet::new() }
    }

    pub fn merge(&mut self, other: Self)
        ensures
            final(self).files@ == old(self).files@ + other.files@,
            final(self).int@ == old(self).int@ + other.int@,
            final(self).float@ == old(self).float@ + other.float@,
    {
        broadcast use vstd::std_specs::hash::group_hash_axioms;

        union_into(&mut self.files, &other.files);
        union_into(&mut self.int, &other.int);
        union_into(&mut self.float, &other.float);
    }

    pub fn is_empty(&self) -> (r: bool)
        ensures
            r == self.files@.is_empty(),
    {
        self.files.is_empty()
    }

    pub fn count(&self) -> (r: usize)
        ensures
            r == self.files@.len(),
    {
        broadcast use vstd::std_specs::hash::group_hash_axioms;

        self.files.len()
    }
}

/// The documents in which a string was seen.
#[derive(Debug)]
pub struct KMString {
    pub files: HashSet<u64>,
}

impl KMString {
    pub fn new() -> (r: Self)
        ensures
            r.files@ == Set::<u64>::empty(),
    {
        Self { files: HashSet::new() }
    }

    pub fn merge(&mut self, other: Self)
        ensures
            final(self).files@ == old(self).files@ + other.files@,
    {
        broadcast use vstd::std_specs::hash::group_hash_axioms;

        union_into(&mut self.files, &other.files);
    }

    pub fn is_empty(&self) -> (r: bool)
        ensures
            r == self.files@.is_empty(),
    {
        self.files.is_empty()
    }

    pub fn count(&self) -> (r: usize)
        ensures
            r == self.files@.len(),
    {
        broadcast use vstd::std_specs::hash::group_hash_axioms;

        self.files.len()
    }
}

/// The documents in which an object was seen. The fields of the objects are
/// not kept here.
#[derive(Debug)]
pub struct KMObject {
    pub files: HashSet<u64>,
}

impl KMObject {
    pub fn new() -> (r: Self)
        ensures
            r.files@ == Set::<u64>::empty(),
    {
        Self { files: HashSet::new() }
    }

    pub fn merge(&mut self, other: Self)
        ensures
            final(self).files@ == old(self).files@ + other.files@,
    {
        broadcast use vstd::std_specs::hash::group_hash_axioms;

        union_into(&mut self.files, &other.files);
    }

    pub fn is_empty(&self) -> (r: bool)
        ensures
            r == self.files@.is_empty(),
    {
        self.files.is_empty()
    }

    pub fn count(&self) -> (r: usize)
        ensures
            r == self.files@.len(),
    {
        broadcast use vstd::std_specs::hash::group_hash_axioms;

        self.files.len()
    }
}

/// The lengths of the arrays seen and the statistics of their elements, all
/// positions taken together.
#[derive(Debug)]
pub struct KMArray {
    pub items: Option<Box<KMTypes>>,
    /// Least and greatest length seen; `None` until an array is seen.
    pub lens: Option<(usize, usize)>,
}

/// The statistics of one key path.
#[derive(Debug)]
pub struct KMTypes {
    pub null: KMNull,
    pub bool: KMBool,
    pub string: KMString,
    pub number: KMNumber,
    pub array: KMArray,
    pub object: KMObject,
}

impl View for KMTypes {
    type V = Stats;

    open spec fn view(&self) -> Stats
        decreases self,
    {
        Stats {
            null: self.null.files@,
            bool_true: self.bool.t@,
            bool_false: self.bool.f@,
            string: self.string.files@,
            number: self.number.files@,
            ints: self.number.int@,
            floats: self.number.float@,
            lens: self.array.spec_lens(),
            items: match self.array.items {
                Some(items) => Some(Box::new((*items).view())),
                None => None,
            },
            object: self.object.files@,
        }
    }
}

impl KMArray {
    /// The bounds on the lengths, as numbers without a limit.
    pub open spec fn spec_lens(&self) -> Option<(nat, nat)> {
        match self.lens {
            Some((least, greatest)) => Some((least as nat, greatest as nat)),
            None => None,
        }
    }

    /// The statistics of the elements, if an element was seen.
    pub open spec fn spec_items(&self) -> Option<Box<Stats>> {
        match self.items {
            Some(items) => Some(Box::new((*items)@)),
            None => None,
        }
    }

    pub fn new() -> (r: Self)
        ensures
            r.lens is None,
            r.items is None,
    {
        Self { items: None, lens: None }
    }

    /// The least length seen, if an array was seen.
    pub fn min_len(&self) -> (r: Option<usize>)
        ensures
            r == match self.lens {
                Some(l) => Some(l.0),
                None => None,
            },
    {
        match self.lens {
            Some(l) => Some(l.0),
            None => None,
        }
    }

    /// The greatest length seen, if an array was seen.
    pub fn max_len(&self) -> (r: Option<usize>)
        ensures
            r == match self.lens {
                Some(l) => Some(l.1),
                None => None,
            },
    {
        match self.lens {
            Some(l) => Some(l.1),
            None => None,
        }
    }

    /// Widens the bounds to cover `len`.
    pub fn see_len(&mut self, len: usize)
        ensures
            final(self).spec_lens() == widen(old(self).spec_lens(), Some((len as nat, len as nat))),
            final(self).items == old(self).items,
    {
        self.lens = match self.lens {
            Some((least, greatest)) => Some(
                (if least <= len { least } else { len }, if greatest >= len { greatest } else { len }),
            ),
            None => Some((len, len)),
        };
    }
}

impl KMArray {
    /// Takes in what `other` has seen.
    pub fn merge(&mut self, other: Self)
        ensures
            final(self).spec_lens() == widen(old(self).spec_lens(), other.spec_lens()),
            final(self).spec_items() == match (old(self).spec_items(), other.spec_items()) {
                (Some(a), Some(b)) => Some(Box::new(a.merge(*b))),
                (Some(a), None) => Some(a),
                (None, b) => b,
            },
        decreases other,
    {
        self.lens = match (self.lens, other.lens) {
            (Some(x), Some(y)) => Some(
                (if x.0 <= y.0 { x.0 } else { y.0 }, if x.1 >= y.1 { x.1 } else { y.1 }),
            ),
            (Some(x), None) => Some(x),
            (None, y) => y,
        };
        if let Some(theirs) = other.items {
            match self.items.take() {
                Some(mut ours) => {
                    ours.merge(*theirs);
                    self.items = Some(ours);
                },
                None => {
                    self.items = Some(theirs);
                },
            }
        }
    }

    /// Records one element `json_value` of an array of document `file`.
    pub fn add(&mut self, file: u64, json_value: &JsonValue)
        ensures
            final(self).lens == old(self).lens,
            final(self).spec_items() == Some(
                Box::new(
                    match old(self).spec_items() {
                        Some(before) => before.merge(Stats::single(file, *json_value)),
                        None => Stats::single(file, *json_value),
                    },
                ),
            ),
        decreases json_value, 1nat,
    {
        match self.items.take() {
            Some(mut items) => {
                items.add(file, json_value);
                self.items = Some(items);
            },
            None => {
                let mut items = KMTypes::new();
                items.add(file, json_value);
                proof {
                    lemma_merge_empty(Stats::single(file, *json_value));
                }
                self.items = Some(Box::new(items));
            },
        }
    }

    /// No element of an array was seen.
    pub fn is_empty(&self) -> (r: bool)
        ensures
            r == match self.spec_items() {
                Some(items) => items.is_empty(),
                None => true,
            },
        decreases self,
    {
        match &self.items {
            Some(items) => items.is_empty(),
            None => true,
        }
    }
}

impl Stats {
    /// Nothing was seen, of any kind. Arrays without elements do not count.
    pub open spec fn is_empty(self) -> bool
        decreases self, 2nat,
    {
        self.is_object() && self.object.is_empty()
    }

    /// Nothing but objects was seen, if anything. Arrays without elements
    /// do not count.
    pub open spec fn is_object(self) -> bool
        decreases self, 1nat,
    {
        &&& self.null.is_empty()
        &&& self.bool_true.is_empty() && self.bool_false.is_empty()
        &&& self.string.is_empty()
        &&& self.number.is_empty()
        &&& self.array_is_empty()
    }

    /// No element of an array was seen.
    pub open spec fn array_is_empty(self) -> bool
        decreases self, 0nat,
    {
        match self.items {
            Some(items) => items.is_empty(),
            None => true,
        }
    }

    /// The number of kinds seen, objects left out: null, boolean, string,
    /// number, and array where an element was seen.
    pub open spec fn type_count(self) -> nat {
        (if self.null.is_empty() { 0nat } else { 1nat })
            + (if self.bool_true.is_empty() && self.bool_false.is_empty() { 0nat } else { 1nat })
            + (if self.string.is_empty() { 0nat } else { 1nat })
            + (if self.number.is_empty() { 0nat } else { 1nat })
            + (if self.array_is_empty() { 0nat } else { 1nat })
    }

    /// The number of sightings: the documents of each kind, a boolean once
    /// for `true` and once for `false`, and for arrays the sightings of their
    /// elements.
    pub open spec fn count(self) -> nat
        decreases self, 1nat,
    {
        self.null.len() + self.bool_true.len() + self.bool_false.len() + self.string.len()
            + self.number.len() + self.array_count() + self.object.len()
    }

    /// The number of sightings of elements of arrays.
    pub open spec fn array_count(self) -> nat
        decreases self, 0nat,
    {
        match self.items {
            Some(items) => items.count(),
            None => 0,
        }
    }

    /// The summary of the arrays: between `[ ` and ` ]=` the summary of the
    /// elements, then the number of their sightings.
    pub open spec fn array_summary(self) -> Seq<char>
        decreases self, 0nat,
    {
        match self.items {
            Some(items) => "[ "@ + items.summary() + " ]="@ + decimal(items.count()),
            None => "[ ]=0"@,
        }
    }

    /// One text for each kind that was seen, in the order null, boolean,
    /// number, string, array, object: `N=`, `B=`, `Num=`, `Str=` or `{}=`
    /// with the number of sightings, and for arrays their summary.
    pub open spec fn parts(self) -> Seq<Seq<char>>
        decreases self, 1nat,
    {
        (if self.null.is_empty() {
            seq![]
        } else {
            seq!["N="@ + decimal(self.null.len())]
        }) + (if self.bool_true.is_empty() && self.bool_false.is_empty() {
            seq![]
        } else {
            seq!["B="@ + decimal(self.bool_true.len() + self.bool_false.len())]
        }) + (if self.number.is_empty() {
            seq![]
        } else {
            seq!["Num="@ + decimal(self.number.len())]
        }) + (if self.string.is_empty() {
            seq![]
        } else {
            seq!["Str="@ + decimal(self.string.len())]
        }) + (if self.array_is_empty() {
            seq![]
        } else {
            seq![self.array_summary()]
        }) + (if self.object.is_empty() {
            seq![]
        } else {
            seq!["{}="@ + decimal(self.object.len())]
        })
    }

    /// The summary of the kinds seen: the parts with one space between each
    /// two.
    pub open spec fn summary(self) -> Seq<char>
        decreases self, 2nat,
    {
        join(self.parts(), " "@)
    }
}

/// Merging with nothing changes nothing.
pub proof fn lemma_merge_empty(s: Stats)
    ensures
        s.merge(Stats::empty()) == s,
        Stats::empty().merge(s) == s,
{
    assert(s.merge(Stats::empty()) =~~= s);
    assert(Stats::empty().merge(s) =~~= s);
}

/// Merging does not depend on the grouping.
pub proof fn lemma_merge_assoc(a: Stats, b: Stats, c: Stats)
    ensures
        a.merge(b).merge(c) == a.merge(b.merge(c)),
    decreases a,
{
    if let (Some(x), Some(y), Some(z)) = (a.items, b.items, c.items) {
        lemma_merge_assoc(*x, *y, *z);
    }
    assert(a.merge(b).merge(c) =~~= a.merge(b.merge(c)));
}

/// Merging does not depend on the order.
pub proof fn lemma_merge_comm(a: Stats, b: Stats)
    ensures
        a.merge(b) == b.merge(a),
    decreases a,
{
    if let (Some(x), Some(y)) = (a.items, b.items) {
        lemma_merge_comm(*x, *y);
    }
    assert(a.merge(b) =~~= b.merge(a));
}

impl KMTypes {
    pub fn new() -> (r: Self)
        ensures
            r@ == Stats::empty(),
    {
        Self {
            null: KMNull::new(),
            bool: KMBool::new(),
            string: KMString::new(),
            number: KMNumber::new(),
            array: KMArray::new(),
            object: KMObject::new(),
        }
    }

    /// Takes in what `other` has seen.
    pub fn merge(&mut self, other: Self)
        ensures
            final(self)@ == old(self)@.merge(other@),
        decreases other,
    {
        self.null.merge(other.null);
        self.bool.merge(other.bool);
        self.number.merge(other.number);
        self.string.merge(other.string);
        self.array.merge(other.array);
        self.object.merge(other.object);
    }

    /// Records one value `json_value` seen in document `file`, under the
    /// kind of the value. A `true` goes to the set of `true`, a `false` to
    /// the set of `false`. Of an array the length is recorded and then each
    /// element, all positions together.
    pub fn add(&mut self, file: u64, json_value: &JsonValue)
        ensures
            final(self)@ == old(self)@.merge(Stats::single(file, *json_value)),
        decreases json_value, 0nat,
    {
        broadcast use vstd::std_specs::hash::group_hash_axioms;

        match json_value {
            JsonValue::Null => {
                self.null.files.insert(file);
            },
            JsonValue::Bool(value) => {
                if *value {
                    self.bool.t.insert(file);
                } else {
                    self.bool.f.insert(file);
                }
            },
            JsonValue::Number(n) => {
                self.number.files.insert(file);
                match n {
                    JsonNumber::Int(i) => {
                        self.number.int.insert(*i);
                    },
                    JsonNumber::Unsigned(_) => {},
                    JsonNumber::Float(bits) => {
                        self.number.float.insert(*bits);
                    },
                }
            },
            JsonValue::String(_) => {
                self.string.files.insert(file);
            },
            JsonValue::Array(array) => {
                let len = array.len();
                self.array.see_len(len);
                let ghost seen = Stats {
                    lens: Some((len as nat, len as nat)),
                    ..Stats::empty()
                };
                assert(self@ =~~= old(self)@.merge(seen));
                let mut i: usize = 0;
                while i < len
                    invariant
                        i <= len,
                        len == array@.len(),
                        *json_value == JsonValue::Array(*array),
                        self@ == old(self)@.merge(
                            Stats { items: Stats::elements(file, *json_value, i as nat), ..seen },
                        ),
                    decreases len - i,
                {
                    let ghost before = Stats {
                        items: Stats::elements(file, *json_value, i as nat),
                        ..seen
                    };
                    let ghost item = Stats::single(file, array@[i as int]);
                    self.array.add(file, &array[i]);
                    i += 1;
                    proof {
                        let after = Stats {
                            items: Stats::elements(file, *json_value, i as nat),
                            ..seen
                        };
                        if let (Some(x), Some(y)) = (old(self)@.items, before.items) {
                            lemma_merge_assoc(*x, *y, item);
                        }
                        assert(self@ =~~= old(self)@.merge(after));
                    }
                }
                assert(self@ =~~= old(self)@.merge(Stats::single(file, *json_value)));
            },
            JsonValue::Object(_) => {
                self.object.files.insert(file);
            },
        }
        assert(self@ =~~= old(self)@.merge(Stats::single(file, *json_value)));
    }

    /// Nothing was seen, of any kind.
    pub fn is_empty(&self) -> (r: bool)
        ensures
            r == self@.is_empty(),
        decreases self,
    {
        self.null.is_empty() && self.bool.is_empty() && self.string.is_empty()
            && self.number.is_empty() && self.array.is_empty() && self.object.is_empty()
    }
}

/// The sum of `a` and `b`, if it is in the range of `usize`.
fn sum(a: Option<usize>, b: usize) -> (r: Option<usize>)
    ensures
        match r {
            Some(n) => a is Some && n == a->0 + b,
            None => a is None || a->0 + b > usize::MAX,
        },
{
    match a {
        Some(x) => if x > usize::MAX - b {
            None
        } else {
            Some(x + b)
        },
        None => None,
    }
}

/// The text `label` followed by the decimal digits of `n`.
fn labelled(label: &str, n: usize) -> (r: String)
    ensures
        r@ == label@ + decimal(n as nat),
{
    let mut out = String::new();
    out.append(label);
    push_decimal(&mut out, n as u64);
    out
}

impl KMArray {
    /// The number of sightings of elements.
    pub fn count(&self) -> (r: usize)
        requires
            self.spec_items() matches Some(items) ==> items.count() <= usize::MAX,
        ensures
            r == match self.spec_items() {
                Some(items) => items.count(),
                None => 0,
            },
        decreases self,
    {
        match &self.items {
            Some(items) => items.count(),
            None => 0,
        }
    }

    /// The summary of the arrays seen: between `[ ` and ` ]=` the summary
    /// of the elements, then the number of their sightings.
    pub fn summary(&self) -> (r: String)
        requires
            self.spec_items() matches Some(items) ==> items.count() <= usize::MAX,
        ensures
            r@ == match self.spec_items() {
                Some(items) => "[ "@ + items.summary() + " ]="@ + decimal(items.count()),
                None => "[ ]=0"@,
            },
        decreases self,
    {
        let mut out = String::new();
        match &self.items {
            Some(items) => {
                out.append("[ ");
                let inner = items.summary();
                out.append(inner.as_str());
                out.append(" ]=");
                push_decimal(&mut out, items.count() as u64);
            },
            None => {
                out.append("[ ]=0");
            },
        }
        out
    }
}

impl KMTypes {
    /// Nothing but objects was seen, if anything.
    pub fn is_object(&self) -> (r: bool)
        ensures
            r == self@.is_object(),
    {
        self.null.is_empty() && self.bool.is_empty() && self.string.is_empty()
            && self.number.is_empty() && self.array.is_empty()
    }

    /// The number of kinds seen, objects left out.
    pub fn type_count(&self) -> (r: u8)
        ensures
            r == self@.type_count(),
            r <= 5,
    {
        let mut n: u8 = 0;
        if !self.null.is_empty() {
            n += 1;
        }
        if !self.bool.is_empty() {
            n += 1;
        }
        if !self.string.is_empty() {
            n += 1;
        }
        if !self.number.is_empty() {
            n += 1;
        }
        if !self.array.is_empty() {
            n += 1;
        }
        n
    }

    /// The number of sightings.
    pub fn count(&self) -> (r: usize)
        requires
            self@.count() <= usize::MAX,
        ensures
            r == self@.count(),
        decreases self,
    {
        self.null.count() + self.bool.count() + self.string.count() + self.number.count()
            + self.array.count() + self.object.count()
    }

    /// The number of sightings, if it is in the range of `usize`.
    pub fn checked_count(&self) -> (r: Option<usize>)
        ensures
            match r {
                Some(n) => n == self@.count(),
                None => self@.count() > usize::MAX,
            },
        decreases self,
    {
        broadcast use vstd::std_specs::hash::group_hash_axioms;

        let inner = match &self.array.items {
            Some(items) => items.checked_count(),
            None => Some(0),
        };
        let a = sum(inner, self.null.files.len());
        let b = sum(a, self.bool.t.len());
        let c = sum(b, self.bool.f.len());
        let d = sum(c, self.string.files.len());
        let e = sum(d, self.number.files.len());
        sum(e, self.object.files.len())
    }

    /// The summary of the kinds seen: for each kind that was seen, in the
    /// order null, boolean, number, string, array, object, its mark (`N=`,
    /// `B=`, `Num=`, `Str=`, `{}=`) with the number of sightings, and for
    /// arrays `[ `, the summary of the elements, ` ]=` and the number of
    /// their sightings; one space between each two.
    pub fn summary(&self) -> (r: String)
        requires
            self@.count() <= usize::MAX,
        ensures
            r@ == self@.summary(),
        decreases self,
    {
        let mut parts: Vec<String> = Vec::new();
        assert(texts(parts@) =~= Seq::<Seq<char>>::empty());
        if !self.null.is_empty() {
            let ghost before = texts(parts@);
            parts.push(labelled("N=", self.null.count()));
            assert(texts(parts@) =~= before + seq!["N="@ + decimal(self@.null.len())]);
        }
        let ghost p1 = texts(parts@);
        if !self.bool.is_empty() {
            parts.push(labelled("B=", self.bool.count()));
            assert(texts(parts@) =~= p1 + seq![
                "B="@ + decimal(self@.bool_true.len() + self@.bool_false.len()),
            ]);
        }
        let ghost p2 = texts(parts@);
        if !self.number.is_empty() {
            parts.push(labelled("Num=", self.number.count()));
            assert(texts(parts@) =~= p2 + seq!["Num="@ + decimal(self@.number.len())]);
        }
        let ghost p3 = texts(parts@);
        if !self.string.is_empty() {
            parts.push(labelled("Str=", self.string.count()));
            assert(texts(parts@) =~= p3 + seq!["Str="@ + decimal(self@.string.len())]);
        }
        let ghost p4 = texts(parts@);
        if !self.array.is_empty() {
            parts.push(self.array.summary());
            assert(texts(parts@) =~= p4 + seq![self@.array_summary()]);
        }
        let ghost p5 = texts(parts@);
        if !self.object.is_empty() {
            parts.push(labelled("{}=", self.object.count()));
            assert(texts(parts@) =~= p5 + seq!["{}="@ + decimal(self@.object.len())]);
        }
        assert(texts(parts@) =~= self@.parts());
        join_with(&parts, " ")
    }
}

/// Appends the elements of `set` to `out`, each once, in no stated order.
fn push_all(out: &mut Vec<u64>, set: &HashSet<u64>)
    ensures
        final(out)@.len() == old(out)@.len() + set@.len(),
        final(out)@.to_set() == old(out)@.to_set() + set@,
{
    broadcast use vstd::std_specs::hash::group_hash_axioms;

    let ghost keys = set.iter().remaining();
    let ghost mut n: int = 0;
    for k in it: set.iter()
        invariant
            it.seq() == keys,
            n == it.index(),
            keys.unref().to_set() == set@,
            keys.len() == set@.len(),
            out@ == old(out)@ + keys.unref().take(n),
    {
        out.push(*k);
        proof {
            assert(keys.unref().take(n + 1) =~= keys.unref().take(n).push(*k));
            n = n + 1;
        }
    }
    proof {
        assert(keys.unref().take(n) =~= keys.unref());
        lemma_to_set_add(old(out)@, keys.unref());
    }
}

/// The elements of two sequences in a row are those of the one and those of
/// the other.
proof fn lemma_to_set_add(a: Seq<u64>, b: Seq<u64>)
    ensures
        (a + b).to_set() == a.to_set() + b.to_set(),
{
    assert forall|x: u64| #[trigger] (a + b).to_set().contains(x) <==> (a.to_set() + b.to_set()).contains(x) by {
        if a.contains(x) {
            let i = choose|i: int| 0 <= i < a.len() && a[i] == x;
            assert((a + b)[i] == x);
        }
        if b.contains(x) {
            let i = choose|i: int| 0 <= i < b.len() && b[i] == x;
            assert((a + b)[a.len() + i] == x);
        }
        if (a + b).contains(x) {
            let i = choose|i: int| 0 <= i < (a + b).len() && (a + b)[i] == x;
            if i < a.len() {
                assert(a[i] == x);
            } else {
                assert(b[i - a.len()] == x);
            }
        }
    }
    assert((a + b).to_set() =~= a.to_set() + b.to_set());
}

impl Stats {
    /// The documents in which anything was seen.
    pub open spec fn docs(self) -> Set<u64>
        decreases self,
    {
        self.null + self.bool_true + self.bool_false + self.number + self.string + (
        match self.items {
            Some(items) => items.docs(),
            None => Set::empty(),
        }) + self.object
    }
}

/// The elements of `set`, each once, in no stated order.
fn elements_of(set: &HashSet<u64>) -> (r: Vec<u64>)
    ensures
        r@.len() == set@.len(),
        r@.to_set() == set@,
{
    let mut out: Vec<u64> = Vec::new();
    assert(out@.to_set() =~= Set::<u64>::empty());
    push_all(&mut out, set);
    assert(out@.to_set() =~= set@);
    out
}

impl KMNull {
    /// The documents in which `null` was seen, each once.
    pub fn files(&self) -> (r: Vec<u64>)
        ensures
            r@.len() == self.files@.len(),
            r@.to_set() == self.files@,
    {
        elements_of(&self.files)
    }
}

impl KMBool {
    /// The documents in which `true` was seen, each once, and then those in
    /// which `false` was seen, each once.
    pub fn files(&self) -> (r: Vec<u64>)
        ensures
            r@.len() == self.t@.len() + self.f@.len(),
            r@.to_set() == self.t@ + self.f@,
    {
        let mut out = elements_of(&self.t);
        push_all(&mut out, &self.f);
        out
    }
}

impl KMNumber {
    /// The documents in which a number was seen, each once.
    pub fn files(&self) -> (r: Vec<u64>)
        ensures
            r@.len() == self.files@.len(),
            r@.to_set() == self.files@,
    {
        elements_of(&self.files)
    }
}

impl KMString {
    /// The documents in which a string was seen, each once.
    pub fn files(&self) -> (r: Vec<u64>)
        ensures
            r@.len() == self.files@.len(),
            r@.to_set() == self.files@,
    {
        elements_of(&self.files)
    }
}

impl KMObject {
    /// The documents in which an object was seen, each once.
    pub fn files(&self) -> (r: Vec<u64>)
        ensures
            r@.len() == self.files@.len(),
            r@.to_set() == self.files@,
    {
        elements_of(&self.files)
    }
}

impl KMArray {
    /// The documents of every sighting of an element.
    pub fn files(&self) -> (r: Vec<u64>)
        ensures
            r@.len() == match self.spec_items() {
                Some(items) => items.count(),
                None => 0,
            },
            r@.to_set() == match self.spec_items() {
                Some(items) => items.docs(),
                None => Set::empty(),
            },
        decreases self,
    {
        match &self.items {
            Some(items) => items.files(),
            None => {
                let out: Vec<u64> = Vec::new();
                assert(out@.to_set() =~= Set::<u64>::empty());
                out
            },
        }
    }
}

impl KMTypes {
    /// The documents of every sighting, one entry for each sighting: those of
    /// null, `true`, `false`, numbers, strings, elements of arrays and
    /// objects. The order is not stated.
    pub fn files(&self) -> (r: Vec<u64>)
        ensures
            r@.len() == self@.count(),
            r@.to_set() == self@.docs(),
        decreases self,
    {
        let mut out = self.null.files();
        let mut bools = self.bool.files();
        let mut numbers = self.number.files();
        let mut strings = self.string.files();
        let mut elements = self.array.files();
        let mut objects = self.object.files();
        let ghost a = out@;
        let ghost b = bools@;
        let ghost c = numbers@;
        let ghost d = strings@;
        let ghost e = elements@;
        let ghost f = objects@;
        out.append(&mut bools);
        out.append(&mut numbers);
        out.append(&mut strings);
        out.append(&mut elements);
        out.append(&mut objects);
        proof {
            lemma_to_set_add(a, b);
            lemma_to_set_add(a + b, c);
            lemma_to_set_add(a + b + c, d);
            lemma_to_set_add(a + b + c + d, e);
            lemma_to_set_add(a + b + c + d + e, f);
            assert(out@.to_set() =~= self@.docs());
        }
        out
    }
}

} // verus!
