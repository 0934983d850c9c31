//! The tree of a whole corpus of documents.

use crate::json::{JsonValue, Path};
use crate::keymap::{document, empty_tree, merge_trees, KeyMap, Tree};
use vstd::prelude::*;

verus! {

/// The tree of the documents `docs`, each given with its identifier: the
/// trees of the documents merged.
pub open spec fn corpus(docs: Seq<(u64, JsonValue)>) -> Tree
    decreases docs.len(),
{
    if docs.len() == 0 {
        empty_tree()
    } else {
        merge_trees(corpus(docs.drop_last()), document(docs.last().0, docs.last().1))
    }
}

/// The tree of the documents `docs` as they were loaded, where `None`
/// stands for a document that could not be read or parsed: such a document
/// adds nothing.
pub open spec fn loaded_corpus(docs: Seq<(u64, Option<JsonValue>)>) -> Tree
    decreases docs.len(),
{
    if docs.len() == 0 {
        empty_tree()
    } else {
        match docs.last().1 {
            Some(value) => merge_trees(
                loaded_corpus(docs.drop_last()),
                document(docs.last().0, value),
            ),
            None => loaded_corpus(docs.drop_last()),
        }
    }
}

/// The documents of `docs` that were loaded, in their order.
pub open spec fn valid(docs: Seq<(u64, Option<JsonValue>)>) -> Seq<(u64, JsonValue)>
    decreases docs.len(),
{
    if docs.len() == 0 {
        Seq::empty()
    } else {
        match docs.last().1 {
            Some(value) => valid(docs.drop_last()).push((docs.last().0, value)),
            None => valid(docs.drop_last()),
        }
    }
}

/// Whether the key path `path` is present in the document `value`: the
/// document is an object and the path leads through nested objects to a
/// value.
pub open spec fn present(value: JsonValue, path: Path) -> bool {
    value is Object && path.len() > 0 && value.at(path) is Some
}

/// The number of documents of `docs` in which `path` is present.
pub open spec fn presence(docs: Seq<(u64, JsonValue)>, path: Path) -> nat
    decreases docs.len(),
{
    if docs.len() == 0 {
        0
    } else {
        presence(docs.drop_last(), path) + if present(docs.last().1, path) {
            1nat
        } else {
            0nat
        }
    }
}

/// In the tree of a corpus the count of a key path is the number of
/// documents in which the path is present, and the tree has the path if it
/// is present in some document. The root is always there and counts nothing.
pub proof fn count_conservation(docs: Seq<(u64, JsonValue)>, path: Path)
    ensures
        corpus(docs).contains_key(path) <==> path.len() == 0 || presence(docs, path) > 0,
        corpus(docs).contains_key(path) ==> corpus(docs)[path].count == presence(docs, path),
    decreases docs.len(),
{
    if docs.len() > 0 {
        count_conservation(docs.drop_last(), path);
    }
}

/// Documents that could not be loaded leave no trace: the tree is that of
/// the documents that were loaded.
pub proof fn failed_documents_ignored(docs: Seq<(u64, Option<JsonValue>)>)
    ensures
        loaded_corpus(docs) == corpus(valid(docs)),
    decreases docs.len(),
{
    if docs.len() > 0 {
        failed_documents_ignored(docs.drop_last());
        if let Some(value) = docs.last().1 {
            let rest = valid(docs.drop_last());
            assert(rest.push((docs.last().0, value)).drop_last() =~= rest);
        }
    }
}

/// The tree of the documents `docs` as they were loaded: each document that
/// was loaded is walked into the tree, the others are passed over.
pub fn aggregate(docs: &Vec<(u64, Option<JsonValue>)>) -> (r: KeyMap)
    requires
        forall|i: int| 0 <= i < docs@.len() ==> ((#[trigger] docs@[i]).1 matches Some(value)
            ==> value.wf()),
    ensures
        r.wf(),
        r@ == loaded_corpus(docs@),
{
    let mut tree = KeyMap::new();
    let mut i: usize = 0;
    while i < docs.len()
        invariant
            i <= docs@.len(),
            tree.wf(),
            tree@ == loaded_corpus(docs@.take(i as int)),
            forall|p: Path| tree@.contains_key(p) ==> (#[trigger] tree@[p]).count <= i,
            forall|i: int| 0 <= i < docs@.len() ==> ((#[trigger] docs@[i]).1 matches Some(value)
                ==> value.wf()),
        decreases docs@.len() - i,
    {
        assert(docs@.take(i + 1).drop_last() =~= docs@.take(i as int));
        if let Some(value) = &docs[i].1 {
            tree.add_document(docs[i].0, value);
        }
        i += 1;
    }
    assert(docs@.take(docs@.len() as int) =~= docs@);
    tree
}

} // verus!
