//! The tree of key paths with its counts and statistics.

use crate::json::{lemma_field_step, JsonValue, Path};
use crate::text::contains_char;
use crate::types::{lemma_merge_assoc, lemma_merge_comm, lemma_merge_empty, KMTypes, Stats};
use vstd::prelude::*;
use vstd::string::*;

verus! {

/// The name of a field.
#[derive(Debug)]
pub struct KeyString(pub String);

impl View for KeyString {
    type V = Seq<char>;

    open spec fn view(&self) -> Seq<char> {
        self.0@
    }
}

impl KeyString {
    /// The name `key`.
    pub fn new(key: &str) -> (r: Self)
        ensures
            r@ == key@,
    {
        KeyString(key.to_owned())
    }

    /// The key as it is written in a path: between double quotes if it holds
    /// a dot, else as it is.
    pub fn render(&self) -> (r: String)
        ensures
            r@ == key_text(self@),
    {
        let mut out = String::new();
        if contains_char(self.0.as_str(), '.') {
            out.append("\"");
            out.append(self.0.as_str());
            out.append("\"");
        } else {
            out.append(self.0.as_str());
        }
        assert(Seq::<char>::empty() + self@ =~= self@);
        out
    }
}

/// A key as it is written in a path: between double quotes if it holds a
/// dot, else as it is.
pub open spec fn key_text(key: Seq<char>) -> Seq<char> {
    if key.contains('.') {
        "\""@ + key + "\""@
    } else {
        key
    }
}

/// What a tree holds of one key path.
#[verifier::ext_equal]
pub struct Node {
    /// How often the path occurred.
    pub count: nat,
    /// The kinds of value seen at the path.
    pub types: Stats,
}

/// A tree as a map from each of its key paths to what it holds of the path.
/// The empty path is the root.
pub type Tree = Map<Path, Node>;

/// The tree with a root that has seen nothing.
pub open spec fn empty_tree() -> Tree {
    Map::new(|p: Path| p.len() == 0, |p: Path| Node { count: 0, types: Stats::empty() })
}

/// The two trees taken together: a path of both has the sum of the counts
/// and the merged statistics, a path of one is taken as it is.
pub open spec fn merge_trees(a: Tree, b: Tree) -> Tree {
    Map::new(
        |p: Path| a.contains_key(p) || b.contains_key(p),
        |p: Path|
            if a.contains_key(p) && b.contains_key(p) {
                Node { count: a[p].count + b[p].count, types: a[p].types.merge(b[p].types) }
            } else if a.contains_key(p) {
                a[p]
            } else {
                b[p]
            },
    )
}

/// A tree whose root has seen nothing and has the one field `key`, which
/// holds the tree `t`.
pub open spec fn under(key: Seq<char>, t: Tree) -> Tree {
    Map::new(
        |p: Path| p.len() == 0 || (p[0] == key && t.contains_key(p.skip(1))),
        |p: Path|
            if p.len() == 0 {
                Node { count: 0, types: Stats::empty() }
            } else {
                t[p.skip(1)]
            },
    )
}

/// The tree of one occurrence of `value` in document `doc`: the value
/// itself at the root, and each value reached through nested objects at its
/// path, each counted once.
pub open spec fn occurrence(doc: u64, value: JsonValue) -> Tree {
    Map::new(
        |p: Path| value.at(p) is Some,
        |p: Path| Node { count: 1, types: Stats::single(doc, value.at(p)->0) },
    )
}

/// The tree of one document: the fields of its top-level object, the root
/// itself not counted. A document that is no object gives the empty tree.
pub open spec fn document(doc: u64, value: JsonValue) -> Tree {
    if value is Object {
        Map::new(
            |p: Path| value.at(p) is Some,
            |p: Path|
                if p.len() == 0 {
                    Node { count: 0, types: Stats::empty() }
                } else {
                    occurrence(doc, value)[p]
                },
        )
    } else {
        empty_tree()
    }
}

/// No count of the two trees taken together exceeds `u64::MAX`.
pub open spec fn mergeable(a: Tree, b: Tree) -> bool {
    forall|p: Path|
        a.contains_key(p) && b.contains_key(p) ==> (#[trigger] a[p]).count + (#[trigger] b[p]).count
            <= u64::MAX
}

/// A node of the tree: the number of occurrences of its key path, the kinds
/// of value seen there, and the fields seen in objects there.
#[derive(Debug)]
pub struct KeyMap {
    pub count: u64,
    pub types: KMTypes,
    pub keys: Vec<(KeyString, KeyMap)>,
}

impl KeyMap {
    /// No node has two fields of one name.
    pub open spec fn wf(&self) -> bool
        decreases self,
    {
        &&& forall|i: int, j: int|
            0 <= i < j < self.keys@.len() ==> (#[trigger] self.keys@[i]).0@ != (
            #[trigger] self.keys@[j]).0@
        &&& forall|i: int| 0 <= i < self.keys@.len() ==> (#[trigger] self.keys@[i]).1.wf()
    }

    /// The node has a field named `key`.
    pub open spec fn has_key(&self, key: Seq<char>) -> bool {
        exists|i: int| 0 <= i < self.keys@.len() && (#[trigger] self.keys@[i]).0@ == key
    }

    /// The position of the field named `key`.
    pub open spec fn key_index(&self, key: Seq<char>) -> int {
        choose|i: int| 0 <= i < self.keys@.len() && (#[trigger] self.keys@[i]).0@ == key
    }

    /// The node reached by following `path` from this node.
    pub open spec fn node_at(&self, path: Path) -> Option<KeyMap>
        decreases path.len(),
    {
        if path.len() == 0 {
            Some(*self)
        } else if self.has_key(path[0]) {
            self.keys@[self.key_index(path[0])].1.node_at(path.skip(1))
        } else {
            None
        }
    }

    /// The first segment of `path` that names no field of the node reached
    /// before it, if there is one.
    pub open spec fn missing(&self, path: Path) -> Option<Seq<char>>
        decreases path.len(),
    {
        if path.len() == 0 {
            None
        } else if self.has_key(path[0]) {
            self.keys@[self.key_index(path[0])].1.missing(path.skip(1))
        } else {
            Some(path[0])
        }
    }

    /// What this node holds of its own key path.
    pub open spec fn node(&self) -> Node {
        Node { count: self.count as nat, types: self.types@ }
    }
}

impl View for KeyMap {
    type V = Tree;

    open spec fn view(&self) -> Tree {
        Map::new(|p: Path| self.node_at(p) is Some, |p: Path| self.node_at(p)->0.node())
    }
}

/// In a well-formed node the field at position `i` is the one found by its
/// name.
pub proof fn lemma_key_index(t: KeyMap, i: int)
    requires
        t.wf(),
        0 <= i < t.keys@.len(),
    ensures
        t.has_key(t.keys@[i].0@),
        t.key_index(t.keys@[i].0@) == i,
{
}

/// A path that starts with the name of field `i` leads through that field.
pub proof fn lemma_step(t: KeyMap, i: int, p: Path)
    requires
        t.wf(),
        0 <= i < t.keys@.len(),
        p.len() > 0,
        p[0] == t.keys@[i].0@,
    ensures
        t.node_at(p) == t.keys@[i].1.node_at(p.skip(1)),
        t@.contains_key(p) == t.keys@[i].1@.contains_key(p.skip(1)),
        t@.contains_key(p) ==> t@[p] == t.keys@[i].1@[p.skip(1)],
{
    lemma_key_index(t, i);
}

impl KeyMap {
    pub fn new() -> (r: Self)
        ensures
            r.wf(),
            r@ == empty_tree(),
            r.count == 0,
            r.types@ == Stats::empty(),
            r.keys@.len() == 0,
    {
        let r = Self { keys: Vec::new(), types: KMTypes::new(), count: 0 };
        proof {
            assert forall|p: Path| #[trigger] r@.contains_key(p) <==> p.len() == 0 by {}
            assert(r@ =~~= empty_tree());
        }
        r
    }

    /// Whether no node has two fields of one name.
    #[verifier::loop_isolation(false)]
    pub fn is_wf(&self) -> (r: bool)
        ensures
            r == self.wf(),
        decreases self,
    {
        let mut j: usize = 0;
        while j < self.keys.len()
            invariant
                j <= self.keys@.len(),
                forall|a: int, b: int|
                    0 <= a < b < j ==> (#[trigger] self.keys@[a]).0@ != (
                    #[trigger] self.keys@[b]).0@,
                forall|a: int| 0 <= a < j ==> (#[trigger] self.keys@[a]).1.wf(),
            decreases self.keys@.len() - j,
        {
            let mut i: usize = 0;
            while i < j
                invariant
                    i <= j < self.keys@.len(),
                    forall|a: int|
                        0 <= a < i ==> (#[trigger] self.keys@[a]).0@ != self.keys@[j as int].0@,
                decreases j - i,
            {
                if self.keys[i].0.0 == self.keys[j].0.0 {
                    return false;
                }
                i += 1;
            }
            if !self.keys[j].1.is_wf() {
                return false;
            }
            j += 1;
        }
        true
    }

    /// The position of the field named `key`, if there is one.
    pub fn find(&self, key: &String) -> (r: Option<usize>)
        ensures
            match r {
                Some(i) => {
                    &&& i < self.keys@.len()
                    &&& self.keys@[i as int].0@ == key@
                    &&& forall|j: int| 0 <= j < i ==> (#[trigger] self.keys@[j]).0@ != key@
                },
                None => !self.has_key(key@),
            },
    {
        let mut i: usize = 0;
        while i < self.keys.len()
            invariant
                i <= self.keys@.len(),
                forall|j: int| 0 <= j < i ==> (#[trigger] self.keys@[j]).0@ != key@,
            decreases self.keys@.len() - i,
        {
            if self.keys[i].0.0 == *key {
                return Some(i);
            }
            i += 1;
        }
        None
    }
}

impl KeyMap {
    /// Walks the document `value` with the identifier `file` into the tree:
    /// each field of its top-level object is recorded under its name. A
    /// document that is no object leaves the tree as it is. The root keeps
    /// its count and its statistics.
    pub fn add_document(&mut self, file: u64, value: &JsonValue)
        requires
            old(self).wf(),
            value.wf(),
            mergeable(old(self)@, document(file, *value)),
        ensures
            final(self).wf(),
            final(self)@ == merge_trees(old(self)@, document(file, *value)),
            final(self).count == old(self).count,
            final(self).types == old(self).types,
        decreases value, 0nat,
    {
        let ghost goal = merge_trees(old(self)@, document(file, *value));
        if let JsonValue::Object(entries) = value {
            let mut i: usize = 0;
            while i < entries.len()
                invariant
                    i <= entries@.len(),
                    self.wf(),
                    value.wf(),
                    *value == JsonValue::Object(*entries),
                    self.count == old(self).count,
                    self.types == old(self).types,
                    mergeable(old(self)@, document(file, *value)),
                    goal == merge_trees(old(self)@, document(file, *value)),
                    forall|p: Path|
                        p.len() > 0 ==> if value.has_field(p[0]) && value.field_index(p[0]) < i
                            && value.at(p) is Some {
                            #[trigger] self@.contains_key(p) && self@[p] == goal[p]
                        } else {
                            self@.contains_key(p) == old(self)@.contains_key(p) && (
                            self@.contains_key(p) ==> self@[p] == old(self)@[p])
                        },
                decreases entries@.len() - i,
            {
                let ghost before = self@;
                let ghost key = entries@[i as int].0@;
                let ghost sub = under(key, occurrence(file, entries@[i as int].1));
                assert(mergeable(before, sub)) by {
                    assert forall|p: Path|
                        before.contains_key(p) && sub.contains_key(p) implies (
                    #[trigger] before[p]).count + (#[trigger] sub[p]).count <= u64::MAX by {
                        if p.len() > 0 {
                            lemma_field_step(*value, i as int, p);
                            assert(self@.contains_key(p));
                            assert(old(self)@.contains_key(p) && document(
                                file,
                                *value,
                            ).contains_key(p));
                            assert(old(self)@[p].count + document(file, *value)[p].count
                                <= u64::MAX);
                        }
                    }
                }
                self.add(file, entries[i].0.as_str(), &entries[i].1);
                proof {
                    assert forall|p: Path| p.len() > 0 implies if value.has_field(p[0])
                        && value.field_index(p[0]) < i + 1 && value.at(p) is Some {
                        #[trigger] self@.contains_key(p) && self@[p] == goal[p]
                    } else {
                        self@.contains_key(p) == old(self)@.contains_key(p) && (
                        self@.contains_key(p) ==> self@[p] == old(self)@[p])
                    } by {
                        if p[0] == key {
                            lemma_field_step(*value, i as int, p);
                            assert(sub.contains_key(p) == (value.at(p) is Some));
                        } else {
                            assert(!sub.contains_key(p));
                            if value.has_field(p[0]) {
                                assert(value.field_index(p[0]) != i);
                            }
                        }
                    }
                }
                i += 1;
            }
        }
        proof {
            assert forall|p: Path| #[trigger] self@.contains_key(p) == goal.contains_key(p) && (
            self@.contains_key(p) ==> self@[p] == goal[p]) by {
                if p.len() == 0 {
                    lemma_merge_empty(old(self).types@);
                } else if value.at(p) is Some {
                    assert(value.has_field(p[0]));
                }
            }
            assert(self@ =~= goal);
        }
    }

    /// Records one occurrence of `value` in document `file` at this node:
    /// the node counts once more, each field of an object is recorded under
    /// its name, and the kind of `value` goes to the statistics of the node.
    pub fn observe(&mut self, file: u64, value: &JsonValue)
        requires
            old(self).wf(),
            value.wf(),
            mergeable(old(self)@, occurrence(file, *value)),
        ensures
            final(self).wf(),
            final(self)@ == merge_trees(old(self)@, occurrence(file, *value)),
        decreases value, 1nat,
    {
        let ghost goal = merge_trees(old(self)@, occurrence(file, *value));
        let ghost root = Seq::<Seq<char>>::empty();
        assert(old(self)@.contains_key(root) && occurrence(file, *value).contains_key(root));
        assert(old(self)@[root].count + occurrence(file, *value)[root].count <= u64::MAX);
        self.count += 1;
        let ghost bumped = *self;
        proof {
            assert forall|p: Path| p.len() > 0 implies bumped.node_at(p) == old(self).node_at(
                p,
            ) by {}
            assert forall|p: Path|
                bumped@.contains_key(p) && document(file, *value).contains_key(p) implies (
            #[trigger] bumped@[p]).count + (#[trigger] document(file, *value)[p]).count
                <= u64::MAX by {
                if p.len() > 0 {
                    assert(old(self)@.contains_key(p) && occurrence(file, *value).contains_key(p));
                    assert(old(self)@[p].count + occurrence(file, *value)[p].count <= u64::MAX);
                }
            }
        }
        self.add_document(file, value);
        let ghost walked = *self;
        self.types.add(file, value);
        proof {
            assert(self.keys == walked.keys);
            assert forall|p: Path| p.len() > 0 implies self.node_at(p) == walked.node_at(p) by {}
            assert forall|p: Path| #[trigger] self@.contains_key(p) == goal.contains_key(p) && (
            self@.contains_key(p) ==> self@[p] == goal[p]) by {
                if p.len() == 0 {
                    assert(p =~= root);
                    assert(value.at(p) == Some(*value));
                    assert(self@[p] == self.node());
                    assert(old(self)@[p] == old(self).node());
                } else {
                    assert(self@.contains_key(p) == walked@.contains_key(p));
                    assert(walked@.contains_key(p) ==> self@[p] == walked@[p]);
                    assert(bumped@.contains_key(p) == old(self)@.contains_key(p));
                    assert(bumped@.contains_key(p) ==> bumped@[p] == old(self)@[p]);
                    if !(value is Object) {
                        assert(value.at(p) is None);
                    }
                }
            }
            assert(self@ =~= goal);
        }
    }

    /// Records the field `name` with its `value`, seen in document `file`:
    /// the node of the field is made if there is none, and the value is
    /// recorded there as one occurrence. The node itself keeps its count and
    /// its statistics.
    pub fn add(&mut self, file: u64, name: &str, value: &JsonValue)
        requires
            old(self).wf(),
            value.wf(),
            mergeable(old(self)@, under(name@, occurrence(file, *value))),
        ensures
            final(self).wf(),
            final(self)@ == merge_trees(old(self)@, under(name@, occurrence(file, *value))),
            final(self).count == old(self).count,
            final(self).types == old(self).types,
        decreases value, 2nat,
    {
        let ghost sub = occurrence(file, *value);
        let ghost goal = merge_trees(old(self)@, under(name@, sub));
        let key = KeyString::new(name);
        let found = self.find(&key.0);
        let idx = match found {
            Some(i) => i,
            None => {
                self.keys.push((key, KeyMap::new()));
                self.keys.len() - 1
            },
        };
        let ghost mid = *self;
        proof {
            assert(mid.wf());
            lemma_key_index(mid, idx as int);
            assert(mergeable(mid.keys@[idx as int].1@, sub)) by {
                assert forall|q: Path|
                    mid.keys@[idx as int].1@.contains_key(q) && sub.contains_key(q) implies (
                #[trigger] mid.keys@[idx as int].1@[q]).count + (#[trigger] sub[q]).count
                    <= u64::MAX by {
                    let p = seq![name@] + q;
                    assert(p.skip(1) =~= q);
                    lemma_step(mid, idx as int, p);
                    if found is Some {
                        lemma_step(*old(self), idx as int, p);
                        assert(old(self)@.contains_key(p));
                        assert(under(name@, sub).contains_key(p));
                        assert(old(self)@[p].count + under(name@, sub)[p].count <= u64::MAX);
                    }
                }
            }
        }
        let child = &mut self.keys[idx].1;
        child.observe(file, value);
        proof {
            assert(self.keys@ =~= mid.keys@.update(
                idx as int,
                (mid.keys@[idx as int].0, self.keys@[idx as int].1),
            ));
            assert(self.wf());
            lemma_key_index(*self, idx as int);
            assert forall|p: Path| #[trigger] self@.contains_key(p) == goal.contains_key(p) && (
            self@.contains_key(p) ==> self@[p] == goal[p]) by {
                if p.len() == 0 {
                    lemma_merge_empty(old(self).types@);
                } else if p[0] == name@ {
                    lemma_step(*self, idx as int, p);
                    lemma_step(mid, idx as int, p);
                    if found is Some {
                        lemma_step(*old(self), idx as int, p);
                    } else {
                        assert(!old(self)@.contains_key(p));
                        if p.skip(1).len() == 0 {
                            lemma_merge_empty(sub[p.skip(1)].types);
                        }
                    }
                } else {
                    assert(!under(name@, sub).contains_key(p));
                    if self.has_key(p[0]) {
                        let j = self.key_index(p[0]);
                        lemma_key_index(mid, j);
                        if found is None {
                            assert(j < old(self).keys@.len());
                            lemma_key_index(*old(self), j);
                        }
                    } else if old(self).has_key(p[0]) {
                        let j = old(self).key_index(p[0]);
                        lemma_key_index(*self, j);
                    }
                }
            }
            assert(self@ =~= goal);
        }
    }
}

/// A path that starts with a name that is no field of the node is not in the
/// tree.
pub proof fn lemma_no_key(t: KeyMap, p: Path)
    requires
        p.len() > 0,
        !t.has_key(p[0]),
    ensures
        !t@.contains_key(p),
{
}

impl KeyMap {
    /// The tree of one document: a fresh tree into which the document is
    /// walked.
    pub fn from_document(file: u64, value: &JsonValue) -> (r: Self)
        requires
            value.wf(),
        ensures
            r.wf(),
            r@ == document(file, *value),
    {
        let mut tree = KeyMap::new();
        proof {
            assert forall|p: Path|
                tree@.contains_key(p) && document(file, *value).contains_key(p) implies (
            #[trigger] tree@[p]).count + (#[trigger] document(file, *value)[p]).count
                <= u64::MAX by {}
        }
        tree.add_document(file, value);
        proof {
            assert forall|p: Path| #[trigger]
                tree@.contains_key(p) == document(file, *value).contains_key(p) && (
                tree@.contains_key(p) ==> tree@[p] == document(file, *value)[p]) by {
                if p.len() == 0 {
                    assert(value.at(p) is Some);
                    lemma_merge_empty(Stats::empty());
                } else if !(value is Object) {
                    assert(value.at(p) is None);
                }
            }
            assert(tree@ =~= document(file, *value));
        }
        tree
    }

    /// Takes the tree `other` into this one: the counts add, the statistics
    /// merge, a field of both is merged in the same way and a field of
    /// `other` alone is taken as it is.
    pub fn merge(&mut self, other: Self)
        requires
            old(self).wf(),
            other.wf(),
            mergeable(old(self)@, other@),
        ensures
            final(self).wf(),
            final(self)@ == merge_trees(old(self)@, other@),
        decreases other,
    {
        let ghost goal = merge_trees(old(self)@, other@);
        let ghost root = Seq::<Seq<char>>::empty();
        assert(old(self)@.contains_key(root) && other@.contains_key(root));
        assert(old(self)@[root].count + other@[root].count <= u64::MAX);
        self.types.merge(other.types);
        let mut theirs = other.keys;
        while theirs.len() > 0
            invariant
                self.wf(),
                other.wf(),
                theirs@ == other.keys@.take(theirs@.len() as int),
                theirs@.len() <= other.keys@.len(),
                self.count == old(self).count,
                self.types@ == old(self).types@.merge(other.types@),
                mergeable(old(self)@, other@),
                goal == merge_trees(old(self)@, other@),
                forall|p: Path|
                    p.len() > 0 ==> if other.has_key(p[0]) && other.key_index(p[0])
                        >= theirs@.len() && other@.contains_key(p) {
                        #[trigger] self@.contains_key(p) && self@[p] == goal[p]
                    } else {
                        self@.contains_key(p) == old(self)@.contains_key(p) && (
                        self@.contains_key(p) ==> self@[p] == old(self)@[p])
                    },
            decreases theirs@.len(),
        {
            let ghost n = theirs@.len() - 1;
            let ghost before = *self;
            let (key, child) = theirs.pop().unwrap();
            assert(key == other.keys@[n].0 && child == other.keys@[n].1);
            proof {
                lemma_key_index(other, n);
            }
            let found = self.find(&key.0);
            match found {
                Some(i) => {
                    proof {
                        lemma_key_index(before, i as int);
                        assert forall|q: Path|
                            before.keys@[i as int].1@.contains_key(q) && child@.contains_key(
                                q,
                            ) implies (#[trigger] before.keys@[i as int].1@[q]).count + (
                        #[trigger] child@[q]).count <= u64::MAX by {
                            let p = seq![key@] + q;
                            assert(p.skip(1) =~= q);
                            lemma_step(before, i as int, p);
                            lemma_step(other, n, p);
                            assert(before@.contains_key(p));
                            assert(old(self)@.contains_key(p) && other@.contains_key(p));
                            assert(old(self)@[p].count + other@[p].count <= u64::MAX);
                        }
                    }
                    let ours = &mut self.keys[i].1;
                    ours.merge(child);
                    proof {
                        assert(self.keys@ =~= before.keys@.update(
                            i as int,
                            (before.keys@[i as int].0, self.keys@[i as int].1),
                        ));
                        assert(self.wf());
                        lemma_key_index(*self, i as int);
                    }
                },
                None => {
                    self.keys.push((key, child));
                    proof {
                        assert(self.wf());
                        lemma_key_index(*self, self.keys@.len() - 1);
                    }
                },
            }
            proof {
                let at = match found {
                    Some(i) => i as int,
                    None => self.keys@.len() - 1,
                };
                assert forall|p: Path| p.len() > 0 implies if other.has_key(p[0])
                    && other.key_index(p[0]) >= n && other@.contains_key(p) {
                    #[trigger] self@.contains_key(p) && self@[p] == goal[p]
                } else {
                    self@.contains_key(p) == old(self)@.contains_key(p) && (self@.contains_key(p)
                        ==> self@[p] == old(self)@[p])
                } by {
                    if p[0] == key@ {
                        lemma_step(*self, at, p);
                        lemma_step(other, n, p);
                        if found is Some {
                            lemma_step(before, at, p);
                        } else {
                            lemma_no_key(before, p);
                        }
                    } else {
                        if other.has_key(p[0]) {
                            assert(other.key_index(p[0]) != n);
                        }
                        if self.has_key(p[0]) {
                            let j = self.key_index(p[0]);
                            assert(j < before.keys@.len());
                            assert(before.keys@[j].0@ == p[0]);
                            lemma_key_index(before, j);
                            assert(self.keys@[j].1 == before.keys@[j].1);
                        } else if before.has_key(p[0]) {
                            let j = before.key_index(p[0]);
                            assert(self.keys@[j].0@ == p[0]);
                        }
                        assert(self.node_at(p) == before.node_at(p));
                        assert(self@.contains_key(p) == before@.contains_key(p));
                        assert(before@.contains_key(p) ==> self@[p] == before@[p]);
                    }
                }
            }
        }
        let ghost merged = *self;
        self.count += other.count;
        proof {
            assert(self.keys == merged.keys);
            assert forall|p: Path| p.len() > 0 implies self.node_at(p) == merged.node_at(p) by {}
            assert forall|p: Path| #[trigger] self@.contains_key(p) == goal.contains_key(p) && (
            self@.contains_key(p) ==> self@[p] == goal[p]) by {
                if p.len() == 0 {
                    assert(p =~= root);
                    assert(self@[p] == self.node());
                    assert(old(self)@[p] == old(self).node());
                    assert(other@[p] == other.node());
                } else {
                    assert(self@.contains_key(p) == merged@.contains_key(p));
                    assert(merged@.contains_key(p) ==> self@[p] == merged@[p]);
                    if other@.contains_key(p) {
                        assert(other.has_key(p[0]));
                    }
                }
            }
            assert(self@ =~= goal);
        }
    }
}

/// The counts of the two trees at `p` do not exceed `u64::MAX` together.
spec fn mergeable_at(a: Tree, b: Tree, p: Path) -> bool {
    a.contains_key(p) && b.contains_key(p) ==> a[p].count + b[p].count <= u64::MAX
}

impl KeyMap {
    /// Whether `other` can be merged into this tree with every count in the
    /// range of `u64`.
    pub fn can_merge(&self, other: &KeyMap) -> (r: bool)
        requires
            self.wf(),
            other.wf(),
        ensures
            r == mergeable(self@, other@),
        decreases other,
    {
        let ghost root = Seq::<Seq<char>>::empty();
        assert(self@.contains_key(root) && other@.contains_key(root));
        assert(self@[root] == self.node() && other@[root] == other.node());
        if self.count > u64::MAX - other.count {
            return false;
        }
        let mut j: usize = 0;
        while j < other.keys.len()
            invariant
                j <= other.keys@.len(),
                self.wf(),
                other.wf(),
                forall|p: Path|
                    p.len() > 0 && other.has_key(p[0]) && other.key_index(p[0]) < j
                        ==> #[trigger] mergeable_at(self@, other@, p),
            decreases other.keys@.len() - j,
        {
            let ghost key = other.keys@[j as int].0@;
            proof {
                lemma_key_index(*other, j as int);
            }
            match self.find(&other.keys[j].0.0) {
                Some(i) => {
                    let fits = self.keys[i].1.can_merge(&other.keys[j].1);
                    proof {
                        lemma_key_index(*self, i as int);
                        let ours = self.keys@[i as int].1@;
                        let theirs = other.keys@[j as int].1@;
                        if fits {
                            assert forall|p: Path|
                                p.len() > 0 && p[0] == key implies #[trigger] mergeable_at(
                                self@,
                                other@,
                                p,
                            ) by {
                                lemma_step(*self, i as int, p);
                                lemma_step(*other, j as int, p);
                                if ours.contains_key(p.skip(1)) && theirs.contains_key(p.skip(1)) {
                                    assert(ours[p.skip(1)].count + theirs[p.skip(1)].count
                                        <= u64::MAX);
                                }
                            }
                        } else {
                            let q = choose|q: Path|
                                ours.contains_key(q) && theirs.contains_key(q) && !((
                                #[trigger] ours[q]).count + (#[trigger] theirs[q]).count
                                    <= u64::MAX);
                            let p = seq![key] + q;
                            assert(p.skip(1) =~= q);
                            lemma_step(*self, i as int, p);
                            lemma_step(*other, j as int, p);
                            assert(self@.contains_key(p) && other@.contains_key(p));
                            assert(self@[p].count + other@[p].count > u64::MAX);
                        }
                    }
                    if !fits {
                        return false;
                    }
                },
                None => {
                    proof {
                        assert forall|p: Path|
                            p.len() > 0 && p[0] == key implies #[trigger] mergeable_at(
                            self@,
                            other@,
                            p,
                        ) by {
                            lemma_no_key(*self, p);
                        }
                    }
                },
            }
            proof {
                assert forall|p: Path|
                    p.len() > 0 && other.has_key(p[0]) && other.key_index(p[0]) < j
                        + 1 implies #[trigger] mergeable_at(self@, other@, p) by {
                    if other.key_index(p[0]) == j {
                        assert(p[0] == key);
                    }
                }
            }
            j += 1;
        }
        proof {
            assert forall|p: Path| self@.contains_key(p) && other@.contains_key(p) implies (
            #[trigger] self@[p]).count + (#[trigger] other@[p]).count <= u64::MAX by {
                if p.len() == 0 {
                    assert(p =~= root);
                } else {
                    assert(other.has_key(p[0]));
                    assert(mergeable_at(self@, other@, p));
                }
            }
        }
        true
    }

    /// Whether the document `value` can be walked into this tree with every
    /// count in the range of `u64`.
    pub fn can_add_document(&self, file: u64, value: &JsonValue) -> (r: bool)
        requires
            self.wf(),
            value.wf(),
        ensures
            r == mergeable(self@, document(file, *value)),
    {
        let one = KeyMap::from_document(file, value);
        self.can_merge(&one)
    }

    /// Whether one occurrence of `value` can be recorded at this node with
    /// every count in the range of `u64`.
    pub fn can_observe(&self, file: u64, value: &JsonValue) -> (r: bool)
        requires
            self.wf(),
            value.wf(),
        ensures
            r == mergeable(self@, occurrence(file, *value)),
    {
        let ghost root = Seq::<Seq<char>>::empty();
        let ghost doc = document(file, *value);
        let ghost occ = occurrence(file, *value);
        assert(self@.contains_key(root) && occ.contains_key(root) && doc.contains_key(root));
        assert(self@[root] == self.node());
        if self.count == u64::MAX {
            assert(self@[root].count + occ[root].count > u64::MAX);
            return false;
        }
        let fits = self.can_add_document(file, value);
        proof {
            assert forall|p: Path| p.len() > 0 implies (doc.contains_key(p) == occ.contains_key(p)
                && (doc.contains_key(p) ==> #[trigger] doc[p] == occ[p])) by {
                if !(value is Object) {
                    assert(value.at(p) is None);
                }
            }
            if fits {
                assert forall|p: Path| self@.contains_key(p) && occ.contains_key(p) implies (
                #[trigger] self@[p]).count + (#[trigger] occ[p]).count <= u64::MAX by {
                    if p.len() == 0 {
                        assert(p =~= root);
                    } else {
                        assert(doc.contains_key(p) && doc[p] == occ[p]);
                    }
                }
            } else {
                let p = choose|p: Path|
                    self@.contains_key(p) && doc.contains_key(p) && !((#[trigger] self@[p]).count
                        + (#[trigger] doc[p]).count <= u64::MAX);
                if p.len() == 0 {
                    assert(p =~= root);
                }
                assert(doc[p] == occ[p]);
                assert(self@.contains_key(p) && occ.contains_key(p));
                assert(self@[p].count + occ[p].count > u64::MAX);
            }
        }
        fits
    }

    /// Whether the field `name` with its `value` can be recorded with every
    /// count in the range of `u64`.
    pub fn can_add(&self, file: u64, name: &str, value: &JsonValue) -> (r: bool)
        requires
            self.wf(),
            value.wf(),
        ensures
            r == mergeable(self@, under(name@, occurrence(file, *value))),
    {
        let ghost sub = occurrence(file, *value);
        let key = KeyString::new(name);
        match self.find(&key.0) {
            Some(i) => {
                let fits = self.keys[i].1.can_observe(file, value);
                proof {
                    let child = self.keys@[i as int].1@;
                    if fits {
                        assert forall|p: Path|
                            self@.contains_key(p) && under(name@, sub).contains_key(
                                p,
                            ) implies (#[trigger] self@[p]).count + (#[trigger] under(
                            name@,
                            sub,
                        )[p]).count <= u64::MAX by {
                            if p.len() > 0 {
                                lemma_step(*self, i as int, p);
                                assert(child.contains_key(p.skip(1)) && sub.contains_key(
                                    p.skip(1),
                                ));
                                assert(child[p.skip(1)].count + sub[p.skip(1)].count <= u64::MAX);
                            }
                        }
                    } else {
                        let q = choose|q: Path|
                            child.contains_key(q) && sub.contains_key(q) && !((
                            #[trigger] child[q]).count + (#[trigger] sub[q]).count <= u64::MAX);
                        let p = seq![name@] + q;
                        assert(p.skip(1) =~= q);
                        lemma_step(*self, i as int, p);
                        assert(self@.contains_key(p) && under(name@, sub).contains_key(p));
                        assert(self@[p].count + under(name@, sub)[p].count > u64::MAX);
                    }
                }
                fits
            },
            None => {
                proof {
                    assert forall|p: Path|
                        self@.contains_key(p) && under(name@, sub).contains_key(p) implies (
                    #[trigger] self@[p]).count + (#[trigger] under(name@, sub)[p]).count
                        <= u64::MAX by {
                        if p.len() > 0 {
                            lemma_no_key(*self, p);
                        }
                    }
                }
                true
            },
        }
    }

    /// The node of the field named `key`, if there is one.
    pub fn get(&self, key: &str) -> (r: Option<&KeyMap>)
        requires
            self.wf(),
        ensures
            match r {
                Some(node) => self.node_at(seq![key@]) == Some(*node),
                None => self.node_at(seq![key@]) is None,
            },
    {
        let name = KeyString::new(key);
        proof {
            assert(seq![key@].skip(1).len() == 0);
        }
        match self.find(&name.0) {
            Some(i) => {
                proof {
                    lemma_step(*self, i as int, seq![key@]);
                }
                Some(&self.keys[i].1)
            },
            None => None,
        }
    }
}

/// Merging the empty tree into a tree, or a tree into the empty tree, gives
/// a tree with the same counts, statistics and fields.
pub proof fn merge_trees_identity(t: KeyMap)
    ensures
        merge_trees(t@, empty_tree()) == t@,
        merge_trees(empty_tree(), t@) == t@,
{
    assert forall|p: Path| t@.contains_key(p) implies #[trigger] merge_trees(t@, empty_tree())[p]
        == t@[p] && merge_trees(empty_tree(), t@)[p] == t@[p] by {
        lemma_merge_empty(t@[p].types);
    }
    assert(t@.contains_key(Seq::empty()));
    assert(merge_trees(t@, empty_tree()) =~= t@);
    assert(merge_trees(empty_tree(), t@) =~= t@);
}

/// Merging trees does not depend on the order of the two.
pub proof fn merge_trees_commutative(a: Tree, b: Tree)
    ensures
        merge_trees(a, b) == merge_trees(b, a),
{
    assert forall|p: Path|
        a.contains_key(p) || b.contains_key(p) implies #[trigger] merge_trees(a, b)[p]
        == merge_trees(b, a)[p] by {
        if a.contains_key(p) && b.contains_key(p) {
            lemma_merge_comm(a[p].types, b[p].types);
        }
    }
    assert(merge_trees(a, b) =~= merge_trees(b, a));
}

/// Merging trees does not depend on the grouping.
pub proof fn merge_trees_associative(a: Tree, b: Tree, c: Tree)
    ensures
        merge_trees(merge_trees(a, b), c) == merge_trees(a, merge_trees(b, c)),
{
    assert forall|p: Path|
        a.contains_key(p) || b.contains_key(p) || c.contains_key(p) implies #[trigger] merge_trees(
            merge_trees(a, b),
            c,
        )[p] == merge_trees(a, merge_trees(b, c))[p] by {
        if a.contains_key(p) && b.contains_key(p) && c.contains_key(p) {
            lemma_merge_assoc(a[p].types, b[p].types, c[p].types);
        }
    }
    assert(merge_trees(merge_trees(a, b), c) =~= merge_trees(a, merge_trees(b, c)));
}

/// Three trees merged in any order and any grouping give the same tree.
pub proof fn merge_trees_any_order(a: KeyMap, b: KeyMap, c: KeyMap)
    ensures
        merge_trees(merge_trees(a@, b@), c@) == merge_trees(a@, merge_trees(b@, c@)),
        merge_trees(merge_trees(a@, b@), c@) == merge_trees(merge_trees(a@, c@), b@),
{
    merge_trees_associative(a@, b@, c@);
    merge_trees_associative(a@, c@, b@);
    merge_trees_commutative(b@, c@);
}

} // verus!
