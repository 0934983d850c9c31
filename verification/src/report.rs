//! The two reports on a tree: the listing of its key paths, and the lookup
//! of one key path.

use crate::json::Path;
use crate::keymap::{key_text, lemma_key_index, lemma_step, KeyMap, KeyString};
use crate::query::{key_texts, parse, query, ParseError};
use crate::text::{decimal, push_decimal, texts};
use crate::types::Stats;
use vstd::prelude::*;
use vstd::string::*;

verus! {

/// Whether a path with the statistics `stats` is listed at the threshold
/// `threshold`: something other than objects was seen there, and at least
/// `threshold` kinds other than objects.
pub open spec fn listed(stats: Stats, threshold: nat) -> bool {
    !stats.is_object() && stats.type_count() >= threshold
}

/// The line of one path: its count, the path as written between single
/// quotes, and the summary of the kinds seen.
pub open spec fn line_text(count: nat, path: Seq<char>, stats: Stats) -> Seq<char> {
    decimal(count) + " '"@ + path + "' "@ + stats.summary()
}

/// The path as written of the field `key` of the node written `prefix`.
pub open spec fn extend(prefix: Seq<char>, key: Seq<char>) -> Seq<char> {
    prefix + "."@ + key_text(key)
}

impl KeyMap {
    /// The lines of this node and of the nodes below it, where the node
    /// itself is written `prefix`: the line of the node if it is listed,
    /// then the lines of each field in turn.
    pub open spec fn listing(self, prefix: Seq<char>, threshold: nat) -> Seq<Seq<char>>
        decreases self, self.keys@.len() + 1,
    {
        (if listed(self.types@, threshold) {
            seq![line_text(self.count as nat, prefix, self.types@)]
        } else {
            seq![]
        }) + self.listing_below(prefix, threshold, self.keys@.len())
    }

    /// The lines of the first `n` fields and of the nodes below them.
    pub open spec fn listing_below(self, prefix: Seq<char>, threshold: nat, n: nat) -> Seq<
        Seq<char>,
    >
        decreases self, n,
    {
        if n == 0 || n > self.keys@.len() {
            seq![]
        } else {
            self.listing_below(prefix, threshold, (n - 1) as nat) + self.keys@[n - 1].1.listing(
                extend(prefix, self.keys@[n - 1].0@),
                threshold,
            )
        }
    }

    /// The number of sightings of every listed node is in the range of
    /// `usize`.
    pub open spec fn listable(self, threshold: nat) -> bool
        decreases self,
    {
        &&& listed(self.types@, threshold) ==> self.types@.count() <= usize::MAX
        &&& forall|i: int|
            0 <= i < self.keys@.len() ==> (#[trigger] self.keys@[i]).1.listable(threshold)
    }

    /// Whether the tree can be listed at the threshold `type_count`.
    pub fn can_list(&self, type_count: u8) -> (r: bool)
        ensures
            r == self.listable(type_count as nat),
        decreases self,
    {
        if !self.types.is_object() && self.types.type_count() >= type_count
            && self.types.checked_count().is_none() {
            return false;
        }
        let mut i: usize = 0;
        while i < self.keys.len()
            invariant
                i <= self.keys@.len(),
                forall|j: int| 0 <= j < i ==> (#[trigger] self.keys@[j]).1.listable(type_count as nat),
            decreases self.keys@.len() - i,
        {
            if !self.keys[i].1.can_list(type_count) {
                return false;
            }
            i += 1;
        }
        true
    }
}

/// Appends to `out` the lines of `tree` and of the nodes below it, where
/// `tree` is written `prefix`: a node has a line if something other than
/// objects was seen there, of at least `type_count` kinds; the fields follow
/// their node whether it has a line or not.
pub fn sub_key_lines(tree: &KeyMap, type_count: u8, prefix: &String, out: &mut Vec<String>)
    requires
        tree.listable(type_count as nat),
    ensures
        texts(final(out)@) == texts(old(out)@) + tree.listing(prefix@, type_count as nat),
    decreases tree,
{
    let ghost threshold = type_count as nat;
    let ghost start = texts(out@);
    let types = &tree.types;
    if !types.is_object() && types.type_count() >= type_count {
        let mut line = String::new();
        push_decimal(&mut line, tree.count);
        line.append(" '");
        line.append(prefix.as_str());
        line.append("' ");
        let summary = types.summary();
        line.append(summary.as_str());
        assert(line@ =~= line_text(tree.count as nat, prefix@, tree.types@));
        out.push(line);
        assert(texts(out@) =~= start + seq![line_text(tree.count as nat, prefix@, tree.types@)]);
    }
    let ghost own = texts(out@);
    assert(own + tree.listing_below(prefix@, threshold, 0) =~= own);
    let mut i: usize = 0;
    while i < tree.keys.len()
        invariant
            i <= tree.keys@.len(),
            tree.listable(threshold),
            threshold == type_count as nat,
            texts(out@) == own + tree.listing_below(prefix@, threshold, i as nat),
        decreases tree.keys@.len() - i,
    {
        let ghost before = tree.listing_below(prefix@, threshold, i as nat);
        let mut below = prefix.clone();
        below.append(".");
        let key = tree.keys[i].0.render();
        below.append(key.as_str());
        assert(below@ =~= extend(prefix@, tree.keys@[i as int].0@));
        sub_key_lines(&tree.keys[i].1, type_count, &below, out);
        assert((own + before) + tree.keys@[i as int].1.listing(below@, threshold) =~= own + (
        before + tree.keys@[i as int].1.listing(below@, threshold)));
        i += 1;
    }
    assert(texts(out@) =~= start + tree.listing(prefix@, threshold));
}

/// The lines of the listing of `tree` at the threshold `type_count`, the
/// root written as the empty path.
pub fn key_lines(tree: &KeyMap, type_count: u8) -> (r: Vec<String>)
    requires
        tree.listable(type_count as nat),
    ensures
        texts(r@) == tree.listing(Seq::empty(), type_count as nat),
{
    let mut out: Vec<String> = Vec::new();
    let prefix = String::new();
    sub_key_lines(tree, type_count, &prefix, &mut out);
    assert(texts(out@) =~= tree.listing(Seq::empty(), type_count as nat));
    out
}

/// A query whose path leaves the tree: the first of its segments that names
/// no field.
#[derive(Debug, PartialEq, Eq)]
pub struct KeyNotFoundError {
    pub key: String,
}

impl KeyNotFoundError {
    /// The text of the error, which names the segment.
    pub fn message(&self) -> (r: String)
        ensures
            r@ == "Could not resolve key "@ + self.key@,
    {
        let mut out = String::new();
        out.append("Could not resolve key ");
        out.append(self.key.as_str());
        out
    }
}

/// Why a query gave no node.
#[derive(Debug, PartialEq, Eq)]
pub enum QueryError<'a> {
    /// The query is no path.
    Parse(ParseError<'a>),
    /// The path leaves the tree.
    KeyNotFound(KeyNotFoundError),
}

impl<'a> QueryError<'a> {
    /// The text of the error.
    pub open spec fn text(self) -> Seq<char> {
        match self {
            QueryError::Parse(e) => "Failed to parse query:\n\t"@ + e.text(),
            QueryError::KeyNotFound(e) => "Could not resolve key "@ + e.key@,
        }
    }

    /// The text of the error.
    pub fn message(&self) -> (r: String)
        ensures
            r@ == self.text(),
    {
        match self {
            QueryError::Parse(e) => {
                let mut out = String::new();
                out.append("Failed to parse query:\n\t");
                let detail = e.message();
                out.append(detail.as_str());
                out
            },
            QueryError::KeyNotFound(e) => e.message(),
        }
    }
}

/// Follows the segments `keys` from the root of `tree`, field by field. The
/// result is the node reached, or the first segment that names no field.
pub fn resolve<'t>(tree: &'t KeyMap, keys: &Vec<&str>) -> (r: Result<&'t KeyMap, KeyNotFoundError>)
    requires
        tree.wf(),
    ensures
        match r {
            Ok(node) => tree.node_at(key_texts(keys@)) == Some(*node),
            Err(e) => {
                &&& tree.node_at(key_texts(keys@)) is None
                &&& tree.missing(key_texts(keys@)) == Some(e.key@)
            },
        },
{
    let ghost path = key_texts(keys@);
    let mut node = tree;
    let mut i: usize = 0;
    assert(path.skip(0) =~= path);
    while i < keys.len()
        invariant
            i <= keys@.len(),
            path == key_texts(keys@),
            node.wf(),
            tree.node_at(path) == node.node_at(path.skip(i as int)),
            tree.missing(path) == node.missing(path.skip(i as int)),
        decreases keys@.len() - i,
    {
        let name = KeyString::new(keys[i]);
        assert(path.skip(i as int)[0] == name@);
        assert(path.skip(i as int).skip(1) =~= path.skip(i + 1));
        match node.find(&name.0) {
            None => {
                return Err(KeyNotFoundError { key: name.0 });
            },
            Some(j) => {
                proof {
                    lemma_key_index(*node, j as int);
                }
                node = &node.keys[j].1;
            },
        }
        i += 1;
    }
    Ok(node)
}

/// Parses the query `q` and follows its path from the root of `tree`.
pub fn query_node<'t, 'q>(tree: &'t KeyMap, q: &'q str) -> (r: Result<&'t KeyMap, QueryError<'q>>)
    requires
        tree.wf(),
    ensures
        match parse(q@) {
            Ok(path) => match r {
                Ok(node) => tree.node_at(path) == Some(*node),
                Err(QueryError::KeyNotFound(e)) => {
                    &&& tree.node_at(path) is None
                    &&& tree.missing(path) == Some(e.key@)
                },
                Err(QueryError::Parse(_)) => false,
            },
            Err((stop, reason)) => {
                &&& r matches Err(QueryError::Parse(e))
                &&& e.reason == reason
                &&& e.rest@ == q@.skip(stop)
            },
        },
{
    match query(q) {
        Ok((_, keys)) => match resolve(tree, &keys) {
            Ok(node) => Ok(node),
            Err(e) => Err(QueryError::KeyNotFound(e)),
        },
        Err(e) => Err(QueryError::Parse(e)),
    }
}

/// The key path `p` as it is written in a line: each segment after a dot.
pub open spec fn path_text(p: Path) -> Seq<char>
    decreases p.len(),
{
    if p.len() == 0 {
        Seq::empty()
    } else {
        extend(path_text(p.drop_last()), p.last())
    }
}

/// The line of the key path `p` of the tree `t`, whose root has the key path
/// `at`.
pub open spec fn line_of(t: KeyMap, at: Path, p: Path) -> Seq<char> {
    line_text(t@[p].count, path_text(at + p), t@[p].types)
}

/// The key path `p` of `t` has a line in the listing of `t`.
pub open spec fn has_line(t: KeyMap, at: Path, threshold: nat, p: Path) -> bool {
    t.listing(path_text(at), threshold).contains(line_of(t, at, p))
}

/// The line `line` is that of a listed key path of `t`.
pub open spec fn is_line(t: KeyMap, at: Path, threshold: nat, line: Seq<char>) -> bool {
    exists|p: Path|
        #![trigger t@.contains_key(p)]
        t@.contains_key(p) && listed(t@[p].types, threshold) && line == line_of(t, at, p)
}

proof fn lemma_contains_add(a: Seq<Seq<char>>, b: Seq<Seq<char>>, x: Seq<char>)
    ensures
        (a + b).contains(x) <==> a.contains(x) || b.contains(x),
{
    if a.contains(x) {
        let i = choose|i: int| 0 <= i < a.len() && a[i] == x;
        assert((a + b)[i] == x);
    }
    if b.contains(x) {
        let i = choose|i: int| 0 <= i < b.len() && b[i] == x;
        assert((a + b)[a.len() + i] == x);
    }
    if (a + b).contains(x) {
        let i = choose|i: int| 0 <= i < (a + b).len() && (a + b)[i] == x;
        if i < a.len() {
            assert(a[i] == x);
        } else {
            assert(b[i - a.len()] == x);
        }
    }
}

/// A line of the field `i` is among the lines of the first `n` fields, for
/// `n` above `i`.
proof fn lemma_below_has(
    t: KeyMap,
    prefix: Seq<char>,
    threshold: nat,
    n: nat,
    i: int,
    line: Seq<char>,
)
    requires
        0 <= i < n <= t.keys@.len(),
        t.keys@[i].1.listing(extend(prefix, t.keys@[i].0@), threshold).contains(line),
    ensures
        t.listing_below(prefix, threshold, n).contains(line),
    decreases n,
{
    let before = t.listing_below(prefix, threshold, (n - 1) as nat);
    let last = t.keys@[n - 1].1.listing(extend(prefix, t.keys@[n - 1].0@), threshold);
    lemma_contains_add(before, last, line);
    if i < n - 1 {
        lemma_below_has(t, prefix, threshold, (n - 1) as nat, i, line);
    }
}

/// Every listed key path of a tree has its line in the listing.
pub proof fn listing_complete(t: KeyMap, at: Path, threshold: nat, p: Path)
    requires
        t.wf(),
        t@.contains_key(p),
        listed(t@[p].types, threshold),
    ensures
        has_line(t, at, threshold, p),
    decreases p.len(),
{
    let prefix = path_text(at);
    let own = if listed(t.types@, threshold) {
        seq![line_text(t.count as nat, prefix, t.types@)]
    } else {
        seq![]
    };
    let below = t.listing_below(prefix, threshold, t.keys@.len());
    lemma_contains_add(own, below, line_of(t, at, p));
    if p.len() == 0 {
        assert(at + p =~= at);
        assert(own[0] == line_of(t, at, p));
    } else {
        let i = t.key_index(p[0]);
        let child = t.keys@[i].1;
        lemma_step(t, i, p);
        let down = at.push(p[0]);
        listing_complete(child, down, threshold, p.skip(1));
        assert(down + p.skip(1) =~= at + p);
        assert(down.drop_last() =~= at);
        lemma_below_has(t, prefix, threshold, t.keys@.len(), i, line_of(t, at, p));
    }
}

/// Every line among those of the first `n` fields is the line of a listed
/// key path.
proof fn lemma_below_sound(t: KeyMap, at: Path, threshold: nat, n: nat, line: Seq<char>)
    requires
        t.wf(),
        n <= t.keys@.len(),
        t.listing_below(path_text(at), threshold, n).contains(line),
    ensures
        is_line(t, at, threshold, line),
    decreases t, n,
{
    let prefix = path_text(at);
    if n > 0 {
        let key = t.keys@[n - 1].0@;
        let child = t.keys@[n - 1].1;
        let before = t.listing_below(prefix, threshold, (n - 1) as nat);
        let last = child.listing(extend(prefix, key), threshold);
        lemma_contains_add(before, last, line);
        if last.contains(line) {
            let down = at.push(key);
            assert(down.drop_last() =~= at);
            listing_sound(child, down, threshold, line);
            let q = choose|q: Path|
                #![trigger child@.contains_key(q)]
                child@.contains_key(q) && listed(child@[q].types, threshold) && line == line_of(
                    child,
                    down,
                    q,
                );
            let p = seq![key] + q;
            assert(p.skip(1) =~= q);
            assert(down + q =~= at + p);
            lemma_step(t, n - 1, p);
            assert(t@.contains_key(p) && listed(t@[p].types, threshold) && line == line_of(
                t,
                at,
                p,
            ));
        } else {
            lemma_below_sound(t, at, threshold, (n - 1) as nat, line);
        }
    }
}

/// Every line of the listing is the line of a listed key path of the tree.
pub proof fn listing_sound(t: KeyMap, at: Path, threshold: nat, line: Seq<char>)
    requires
        t.wf(),
        t.listing(path_text(at), threshold).contains(line),
    ensures
        is_line(t, at, threshold, line),
    decreases t, t.keys@.len() + 1,
{
    let prefix = path_text(at);
    let own = if listed(t.types@, threshold) {
        seq![line_text(t.count as nat, prefix, t.types@)]
    } else {
        seq![]
    };
    let below = t.listing_below(prefix, threshold, t.keys@.len());
    lemma_contains_add(own, below, line);
    if own.contains(line) {
        let root = Seq::<Seq<char>>::empty();
        assert(at + root =~= at);
        assert(t@.contains_key(root) && listed(t@[root].types, threshold) && line == line_of(
            t,
            at,
            root,
        ));
    } else {
        lemma_below_sound(t, at, threshold, t.keys@.len(), line);
    }
}

/// The listing of a tree at a threshold holds the lines of the key paths
/// where something other than objects was seen, of at least as many kinds
/// as the threshold, and no other line. At the threshold 0 these are all key
/// paths where something other than objects was seen.
pub proof fn listing_filters(t: KeyMap, threshold: nat)
    requires
        t.wf(),
    ensures
        forall|p: Path|
            #![trigger t@.contains_key(p)]
            t@.contains_key(p) && !t@[p].types.is_object() && t@[p].types.type_count()
                >= threshold ==> t.listing(Seq::empty(), threshold).contains(
                line_text(t@[p].count, path_text(p), t@[p].types),
            ),
        forall|line: Seq<char>| #[trigger]
            t.listing(Seq::empty(), threshold).contains(line) ==> exists|p: Path|
                #![trigger t@.contains_key(p)]
                t@.contains_key(p) && !t@[p].types.is_object() && t@[p].types.type_count()
                    >= threshold && line == line_text(t@[p].count, path_text(p), t@[p].types),
{
    let at = Seq::<Seq<char>>::empty();
    assert forall|p: Path|
        #![trigger t@.contains_key(p)]
        t@.contains_key(p) && !t@[p].types.is_object() && t@[p].types.type_count()
            >= threshold implies t.listing(Seq::empty(), threshold).contains(
        line_text(t@[p].count, path_text(p), t@[p].types),
    ) by {
        listing_complete(t, at, threshold, p);
        assert(at + p =~= p);
    }
    assert forall|line: Seq<char>| #[trigger]
        t.listing(Seq::empty(), threshold).contains(line) implies exists|p: Path|
        #![trigger t@.contains_key(p)]
        t@.contains_key(p) && !t@[p].types.is_object() && t@[p].types.type_count() >= threshold
            && line == line_text(t@[p].count, path_text(p), t@[p].types) by {
        listing_sound(t, at, threshold, line);
        let p = choose|p: Path|
            #![trigger t@.contains_key(p)]
            t@.contains_key(p) && listed(t@[p].types, threshold) && line == line_of(t, at, p);
        assert(at + p =~= p);
    }
}

} // verus!
