use json_keymap::corpus::aggregate;
use json_keymap::json::{JsonNumber, JsonValue};
use json_keymap::keymap::{KeyMap, KeyString};
use json_keymap::report::{key_lines, query_node, resolve, KeyNotFoundError, QueryError};
use json_keymap::text::{contains_char, join_with, push_decimal};
use json_keymap::types::{KMArray, KMBool, KMTypes};
use std::collections::HashSet;

fn num(i: i64) -> JsonValue {
    JsonValue::Number(JsonNumber::Int(i))
}

fn string(s: &str) -> JsonValue {
    JsonValue::String(s.to_string())
}

fn obj(fields: Vec<(&str, JsonValue)>) -> JsonValue {
    JsonValue::Object(fields.into_iter().map(|(k, v)| (k.to_string(), v)).collect())
}

fn set(ids: &[u64]) -> HashSet<u64> {
    ids.iter().copied().collect()
}

fn sorted(ids: &HashSet<u64>) -> Vec<u64> {
    let mut v: Vec<u64> = ids.iter().copied().collect();
    v.sort();
    v
}

fn sorted_ints(ids: &HashSet<i64>) -> Vec<i64> {
    let mut v: Vec<i64> = ids.iter().copied().collect();
    v.sort();
    v
}

/// What a node's statistics hold, in an order that does not depend on the
/// order of insertion.
fn describe_types(t: &KMTypes) -> String {
    let items = match &t.array.items {
        Some(items) => describe_types(items),
        None => "-".to_string(),
    };
    format!(
        "null{:?} t{:?} f{:?} str{:?} num{:?} int{:?} float{:?} lens{:?} items({}) obj{:?}",
        sorted(&t.null.files),
        sorted(&t.bool.t),
        sorted(&t.bool.f),
        sorted(&t.string.files),
        sorted(&t.number.files),
        sorted_ints(&t.number.int),
        sorted(&t.number.float),
        t.array.lens,
        items,
        sorted(&t.object.files)
    )
}

/// Every key path of a tree with what the tree holds of it, sorted by path.
fn describe(tree: &KeyMap) -> Vec<String> {
    let mut out = Vec::new();
    describe_into(tree, "", &mut out);
    out.sort();
    out
}

fn describe_into(tree: &KeyMap, path: &str, out: &mut Vec<String>) {
    out.push(format!("{} count={} {}", path, tree.count, describe_types(&tree.types)));
    for (key, child) in &tree.keys {
        describe_into(child, &format!("{}/{}", path, key.0), out);
    }
}

fn doc_a() -> JsonValue {
    obj(vec![
        ("name", string("x")),
        ("size", num(3)),
        ("meta", obj(vec![("tags", JsonValue::Array(vec![string("a"), string("b")]))])),
    ])
}

fn doc_b() -> JsonValue {
    obj(vec![
        ("name", JsonValue::Null),
        ("size", string("big")),
        ("meta", obj(vec![("tags", JsonValue::Array(vec![num(1)])), ("ok", JsonValue::Bool(false))])),
    ])
}

fn doc_c() -> JsonValue {
    obj(vec![("size", JsonValue::Number(JsonNumber::Float(0x3ff8000000000000))), ("extra", JsonValue::Bool(true))])
}

fn merged(order: Vec<(u64, JsonValue)>) -> KeyMap {
    let mut tree = KeyMap::new();
    for (id, value) in order {
        let one = KeyMap::from_document(id, &value);
        assert!(tree.can_merge(&one));
        tree.merge(one);
    }
    tree
}

#[test]
fn merging_the_empty_tree_changes_nothing() {
    let mut tree = KeyMap::from_document(1, &doc_a());
    let before = describe(&tree);
    tree.merge(KeyMap::new());
    assert_eq!(describe(&tree), before);

    let mut empty = KeyMap::new();
    empty.merge(KeyMap::from_document(1, &doc_a()));
    assert_eq!(describe(&empty), before);
}

#[test]
fn merge_order_and_grouping_do_not_matter() {
    // (A + B) + C
    let abc = merged(vec![(1, doc_a()), (2, doc_b()), (3, doc_c())]);
    // (A + C) + B
    let acb = merged(vec![(1, doc_a()), (3, doc_c()), (2, doc_b())]);
    // A + (B + C)
    let mut bc = KeyMap::from_document(2, &doc_b());
    bc.merge(KeyMap::from_document(3, &doc_c()));
    let mut a_bc = KeyMap::from_document(1, &doc_a());
    assert!(a_bc.can_merge(&bc));
    a_bc.merge(bc);

    assert_eq!(describe(&abc), describe(&acb));
    assert_eq!(describe(&abc), describe(&a_bc));
    let size = abc.get("size").unwrap();
    assert_eq!(size.count, 3);
    assert_eq!(size.types.number.count(), 2);
    assert_eq!(size.types.string.count(), 1);
}

#[test]
fn count_is_the_number_of_documents_with_the_path() {
    let tree = merged(vec![(1, doc_a()), (2, doc_b()), (3, doc_c())]);
    assert_eq!(tree.count, 0);
    assert_eq!(tree.get("name").unwrap().count, 2);
    assert_eq!(tree.get("size").unwrap().count, 3);
    assert_eq!(tree.get("extra").unwrap().count, 1);
    let meta = tree.get("meta").unwrap();
    assert_eq!(meta.count, 2);
    assert_eq!(meta.get("tags").unwrap().count, 2);
    assert_eq!(meta.get("ok").unwrap().count, 1);
    assert!(tree.get("tags").is_none());
}

#[test]
fn object_values_are_recorded_and_expanded() {
    let tree = KeyMap::from_document(7, &doc_a());
    let meta = tree.get("meta").unwrap();
    assert_eq!(sorted(&meta.types.object.files), vec![7]);
    assert!(meta.types.is_object());
    assert!(!meta.types.is_empty());
    assert_eq!(meta.keys.len(), 1);
}

#[test]
fn top_level_values_that_are_no_object_add_nothing() {
    for value in [num(1), string("x"), JsonValue::Null, JsonValue::Array(vec![obj(vec![("a", num(1))])])] {
        let tree = KeyMap::from_document(1, &value);
        assert_eq!(describe(&tree), describe(&KeyMap::new()));
    }
}

#[test]
fn listing_filters_by_the_number_of_kinds() {
    let tree = merged(vec![(1, doc_a()), (2, doc_b()), (3, doc_c())]);
    assert!(tree.can_list(0));
    let mut all = key_lines(&tree, 0);
    all.sort();
    assert_eq!(
        all,
        vec![
            "1 '.extra' B=1",
            "1 '.meta.ok' B=1",
            "2 '.meta.tags' [ Num=1 Str=1 ]=2",
            "2 '.name' N=1 Str=1",
            "3 '.size' Num=2 Str=1",
        ]
    );
    let mut one = key_lines(&tree, 1);
    one.sort();
    assert_eq!(one, all);
    let mut two = key_lines(&tree, 2);
    two.sort();
    assert_eq!(two, vec!["2 '.name' N=1 Str=1", "3 '.size' Num=2 Str=1"]);
    assert_eq!(key_lines(&tree, 3), Vec::<String>::new());
}

#[test]
fn listing_goes_below_nodes_that_have_no_line() {
    let value = obj(vec![("a", obj(vec![("b", obj(vec![("c", num(1))]))]))]);
    let tree = KeyMap::from_document(1, &value);
    assert_eq!(key_lines(&tree, 1), vec!["1 '.a.b.c' Num=1"]);
}

#[test]
fn listing_puts_a_node_before_its_fields() {
    let first = obj(vec![("a", num(1))]);
    let second = obj(vec![("a", obj(vec![("b", string("x"))]))]);
    let tree = merged(vec![(1, first), (2, second)]);
    assert_eq!(key_lines(&tree, 0), vec!["2 '.a' Num=1 {}=1", "1 '.a.b' Str=1"]);
}

#[test]
fn keys_with_a_dot_are_quoted_in_a_line() {
    let value = obj(vec![("a", obj(vec![("b.b", num(1))]))]);
    let tree = KeyMap::from_document(1, &value);
    assert_eq!(key_lines(&tree, 1), vec!["1 '.a.\"b.b\"' Num=1"]);
    assert_eq!(KeyString::new("b.b").render(), "\"b.b\"");
    assert_eq!(KeyString::new("bb").render(), "bb");
    assert_eq!(KeyString::new("").render(), "");
}

#[test]
fn query_finds_the_node_of_a_path() {
    let value = obj(vec![("a", obj(vec![("b", num(5))]))]);
    let tree = KeyMap::from_document(1, &value);
    let node = query_node(&tree, ".a.b").unwrap();
    assert_eq!(node.count, 1);
    assert_eq!(node.types.number.count(), 1);
    assert_eq!(sorted_ints(&node.types.number.int), vec![5]);
    assert_eq!(node.types.summary(), "Num=1");
    assert_eq!(node.types.count(), 1);
    assert!(node.keys.is_empty());
}

#[test]
fn empty_path_is_the_root() {
    let tree = KeyMap::from_document(1, &doc_a());
    let node = query_node(&tree, ".").unwrap();
    assert_eq!(describe(node), describe(&tree));
}

#[test]
fn quoted_segment_resolves_a_key_with_a_dot() {
    let value = obj(vec![("a", obj(vec![("b.b", string("x")), ("b", obj(vec![("b", num(1))]))]))]);
    let tree = KeyMap::from_document(1, &value);
    let node = query_node(&tree, ".a.\"b.b\"").unwrap();
    assert_eq!(node.types.summary(), "Str=1");
    let other = query_node(&tree, ".a.b.b").unwrap();
    assert_eq!(other.types.summary(), "Num=1");
}

#[test]
fn missing_key_is_named() {
    let value = obj(vec![("x", obj(vec![("z", num(1))]))]);
    let with_x = KeyMap::from_document(1, &value);
    let without_x = KeyMap::from_document(1, &obj(vec![("q", num(1))]));

    let e = query_node(&without_x, ".x.y").unwrap_err();
    assert_eq!(e, QueryError::KeyNotFound(KeyNotFoundError { key: "x".to_string() }));
    assert_eq!(e.message(), "Could not resolve key x");

    let e = query_node(&with_x, ".x.y").unwrap_err();
    assert_eq!(e, QueryError::KeyNotFound(KeyNotFoundError { key: "y".to_string() }));
    assert_eq!(e.message(), "Could not resolve key y");

    let e = resolve(&with_x, &vec!["x", "z", "w", "v"]).unwrap_err();
    assert_eq!(e.key, "w");
    assert_eq!(e.message(), "Could not resolve key w");
}

#[test]
fn query_that_does_not_parse_is_reported() {
    let tree = KeyMap::from_document(1, &doc_a());
    let e = query_node(&tree, "name").unwrap_err();
    assert_eq!(e.message(), "Failed to parse query:\n\texpected '.' at: name");
    let e = query_node(&tree, ".name..x").unwrap_err();
    assert_eq!(e.message(), "Failed to parse query:\n\tunexpected input at: ..x");
}

#[test]
fn arrays_of_two_documents_are_taken_together() {
    let first = obj(vec![("v", JsonValue::Array(vec![num(1), num(2)]))]);
    let second = obj(vec![("v", JsonValue::Array(vec![string("a")]))]);
    let tree = merged(vec![(1, first), (2, second)]);
    let v = tree.get("v").unwrap();
    assert_eq!(v.count, 2);
    assert_eq!(v.types.array.min_len(), Some(1));
    assert_eq!(v.types.array.max_len(), Some(2));
    let items = v.types.array.items.as_ref().unwrap();
    assert_eq!(sorted(&items.number.files), vec![1]);
    assert_eq!(sorted_ints(&items.number.int), vec![1, 2]);
    assert_eq!(sorted(&items.string.files), vec![2]);
    assert_eq!(v.types.summary(), "[ Num=1 Str=1 ]=2");
    assert_eq!(v.types.type_count(), 1);
}

#[test]
fn array_lengths_start_at_the_first_array() {
    let mut types = KMTypes::new();
    assert_eq!(types.array.min_len(), None);
    assert_eq!(types.array.max_len(), None);
    types.add(1, &JsonValue::Array(vec![num(1), num(2), num(3)]));
    assert_eq!(types.array.lens, Some((3, 3)));
    types.add(1, &JsonValue::Array(vec![]));
    assert_eq!(types.array.lens, Some((0, 3)));
    types.add(2, &JsonValue::Array(vec![num(1), num(2), num(3), num(4), num(5)]));
    assert_eq!(types.array.lens, Some((0, 5)));

    let mut array = KMArray::new();
    array.see_len(4);
    array.see_len(2);
    array.see_len(3);
    assert_eq!(array.lens, Some((2, 4)));
    let mut unseen = KMArray::new();
    unseen.merge(array);
    assert_eq!(unseen.lens, Some((2, 4)));
    unseen.merge(KMArray::new());
    assert_eq!(unseen.lens, Some((2, 4)));
}

#[test]
fn arrays_without_elements_are_not_a_kind() {
    let mut types = KMTypes::new();
    types.add(1, &JsonValue::Array(vec![]));
    assert!(types.array.is_empty());
    assert!(types.is_empty());
    assert!(types.is_object());
    assert_eq!(types.type_count(), 0);
    assert_eq!(types.summary(), "");
    assert_eq!(types.array.summary(), "[ ]=0");
}

#[test]
fn nested_arrays_are_summarised_inside() {
    let mut types = KMTypes::new();
    types.add(1, &JsonValue::Array(vec![JsonValue::Array(vec![num(1)]), string("x"), obj(vec![])]));
    assert_eq!(types.summary(), "[ Str=1 [ Num=1 ]=1 {}=1 ]=3");
    assert_eq!(types.count(), 3);
    assert_eq!(types.checked_count(), Some(3));
    let mut files = types.files();
    files.sort();
    assert_eq!(files, vec![1, 1, 1]);
}

#[test]
fn each_kind_goes_to_its_own_set() {
    let mut types = KMTypes::new();
    types.add(1, &JsonValue::Null);
    types.add(2, &JsonValue::Bool(true));
    types.add(3, &JsonValue::Bool(false));
    types.add(4, &num(-7));
    types.add(5, &JsonValue::Number(JsonNumber::Unsigned(u64::MAX)));
    types.add(6, &JsonValue::Number(JsonNumber::Float(0x4000000000000000)));
    types.add(7, &string("s"));
    types.add(8, &obj(vec![("ignored", num(1))]));
    types.add(9, &JsonValue::Array(vec![num(1)]));
    assert_eq!(sorted(&types.null.files), vec![1]);
    assert_eq!(sorted(&types.bool.t), vec![2]);
    assert_eq!(sorted(&types.bool.f), vec![3]);
    assert_eq!(sorted(&types.number.files), vec![4, 5, 6]);
    assert_eq!(sorted_ints(&types.number.int), vec![-7]);
    assert_eq!(sorted(&types.number.float), vec![0x4000000000000000]);
    assert_eq!(sorted(&types.string.files), vec![7]);
    assert_eq!(sorted(&types.object.files), vec![8]);
    assert_eq!(types.type_count(), 5);
    assert!(!types.is_object());
    assert!(!types.is_empty());
    assert_eq!(types.count(), 9);
    assert_eq!(types.summary(), "N=1 B=2 Num=3 Str=1 [ Num=1 ]=1 {}=1");
    let mut files = types.files();
    files.sort();
    assert_eq!(files, vec![1, 2, 3, 4, 5, 6, 7, 8, 9]);
}

#[test]
fn a_document_counts_once_in_a_set() {
    let mut types = KMTypes::new();
    types.add(1, &num(1));
    types.add(1, &num(2));
    types.add(1, &num(1));
    assert_eq!(types.number.count(), 1);
    assert_eq!(sorted_ints(&types.number.int), vec![1, 2]);
    assert_eq!(types.summary(), "Num=1");
}

#[test]
fn booleans_count_true_and_false_apart() {
    let mut b = KMBool::new();
    assert!(b.is_empty());
    b.t.insert(1);
    b.f.insert(1);
    b.f.insert(2);
    assert_eq!(b.count(), 3);
    let mut other = KMBool::new();
    other.t.insert(5);
    b.merge(other);
    assert_eq!(b.t, set(&[1, 5]));
    assert_eq!(b.f, set(&[1, 2]));
}

#[test]
fn statistics_merge_by_union() {
    let mut a = KMTypes::new();
    a.add(1, &num(1));
    a.add(1, &JsonValue::Array(vec![string("x")]));
    let mut b = KMTypes::new();
    b.add(2, &num(2));
    b.add(2, &JsonValue::Null);
    b.add(2, &JsonValue::Array(vec![string("y"), num(4), num(5)]));
    a.merge(b);
    assert_eq!(
        describe_types(&a),
        "null[2] t[] f[] str[] num[1, 2] int[1, 2] float[] lens(Some((1, 3))) items(null[] t[] f[] str[1, 2] num[2] int[4, 5] float[] lensNone items(-) obj[]) obj[]"
            .replace("lens(Some((1, 3)))", "lensSome((1, 3))")
    );
    a.merge(KMTypes::new());
    assert_eq!(a.summary(), "N=1 Num=2 [ Num=1 Str=2 ]=3");
}

#[test]
fn documents_that_failed_to_load_leave_no_trace() {
    let with_failures = vec![
        (1, Some(doc_a())),
        (2, None),
        (3, Some(doc_b())),
        (4, None),
        (5, Some(doc_c())),
    ];
    let only_valid = vec![(1, Some(doc_a())), (3, Some(doc_b())), (5, Some(doc_c()))];
    assert_eq!(describe(&aggregate(&with_failures)), describe(&aggregate(&only_valid)));
    assert_eq!(
        describe(&aggregate(&only_valid)),
        describe(&merged(vec![(1, doc_a()), (3, doc_b()), (5, doc_c())]))
    );
    assert_eq!(describe(&aggregate(&vec![(9, None)])), describe(&KeyMap::new()));
}

#[test]
fn add_records_one_field() {
    let mut tree = KeyMap::new();
    tree.add(1, "a", &obj(vec![("b", num(1))]));
    tree.add(2, "a", &string("x"));
    tree.add(2, "c", &JsonValue::Null);
    assert_eq!(tree.count, 0);
    assert!(tree.types.is_empty());
    let a = tree.get("a").unwrap();
    assert_eq!(a.count, 2);
    assert_eq!(a.types.summary(), "Str=1 {}=1");
    assert_eq!(a.get("b").unwrap().count, 1);
    assert_eq!(tree.get("c").unwrap().types.summary(), "N=1");
    assert_eq!(tree.find(&"c".to_string()), Some(1));
    assert_eq!(tree.find(&"d".to_string()), None);
}

#[test]
fn observe_counts_the_node_itself() {
    let mut node = KeyMap::new();
    node.observe(1, &obj(vec![("b", num(1))]));
    node.observe(2, &num(3));
    assert_eq!(node.count, 2);
    assert_eq!(node.types.summary(), "Num=1 {}=1");
    assert_eq!(node.get("b").unwrap().count, 1);
}

#[test]
fn counts_that_would_pass_the_limit_are_refused() {
    let mut big = KeyMap::from_document(1, &obj(vec![("a", obj(vec![("b", num(1))]))]));
    big.keys[0].1.keys[0].1.count = u64::MAX;
    let other = KeyMap::from_document(2, &obj(vec![("a", obj(vec![("b", num(1))]))]));
    assert!(!big.can_merge(&other));
    assert!(!other.can_merge(&big));
    let apart = KeyMap::from_document(2, &obj(vec![("a", obj(vec![("c", num(1))]))]));
    assert!(big.can_merge(&apart));
    big.merge(apart);
    assert_eq!(big.get("a").unwrap().get("b").unwrap().count, u64::MAX);
    assert_eq!(big.get("a").unwrap().count, 2);
}

#[test]
fn objects_with_a_field_twice_are_not_well_formed() {
    assert!(doc_a().is_wf());
    assert!(num(1).is_wf());
    assert!(!obj(vec![("a", num(1)), ("b", num(2)), ("a", num(3))]).is_wf());
    assert!(!obj(vec![("a", obj(vec![("x", num(1)), ("x", num(1))]))]).is_wf());
    // Objects inside arrays are not walked.
    assert!(JsonValue::Array(vec![obj(vec![("x", num(1)), ("x", num(1))])]).is_wf());
}

#[test]
fn decimal_digits() {
    for (n, expected) in [
        (0u64, "0"),
        (7, "7"),
        (10, "10"),
        (99, "99"),
        (100, "100"),
        (12345, "12345"),
        (u64::MAX, "18446744073709551615"),
    ] {
        let mut out = String::from("x");
        push_decimal(&mut out, n);
        assert_eq!(out, format!("x{}", expected));
    }
}

#[test]
fn join_puts_the_separator_between() {
    let parts = |v: &[&str]| v.iter().map(|s| s.to_string()).collect::<Vec<String>>();
    assert_eq!(join_with(&parts(&[]), " "), "");
    assert_eq!(join_with(&parts(&["a"]), " "), "a");
    assert_eq!(join_with(&parts(&["a", "b", "c"]), ", "), "a, b, c");
    assert_eq!(join_with(&parts(&["", ""]), "-"), "-");
}

#[test]
fn contains_char_finds_a_character() {
    assert!(contains_char("a.b", '.'));
    assert!(contains_char(".", '.'));
    assert!(!contains_char("ab", '.'));
    assert!(!contains_char("", '.'));
    assert!(contains_char("日本.語", '.'));
}

#[test]
fn walks_that_would_pass_the_limit_are_refused() {
    let value = obj(vec![("a", obj(vec![("b", num(1))]))]);
    let mut tree = KeyMap::from_document(1, &value);
    assert!(tree.can_add_document(2, &value));
    assert!(tree.can_add(2, "a", &num(1)));
    assert!(tree.can_observe(2, &value));

    tree.keys[0].1.keys[0].1.count = u64::MAX;
    assert!(!tree.can_add_document(2, &value));
    assert!(!tree.can_add(2, "a", &obj(vec![("b", num(1))])));
    assert!(tree.can_add(2, "a", &obj(vec![("c", num(1))])));
    assert!(tree.can_add(2, "b", &obj(vec![("b", num(1))])));
    assert!(!tree.can_observe(2, &value));
    assert!(tree.can_observe(2, &num(1)));

    tree.count = u64::MAX;
    assert!(!tree.can_observe(2, &num(1)));
    assert!(tree.can_add_document(2, &num(1)));
    assert!(tree.can_add_document(2, &obj(vec![("z", num(1))])));
}

#[test]
fn trees_with_a_field_twice_are_not_well_formed() {
    let mut tree = KeyMap::from_document(1, &doc_a());
    assert!(tree.is_wf());
    assert!(KeyMap::new().is_wf());
    tree.keys[2].1.keys.push((KeyString::new("tags"), KeyMap::new()));
    assert!(!tree.is_wf());
}

#[test]
fn files_of_each_kind() {
    let mut types = KMTypes::new();
    types.add(1, &JsonValue::Null);
    types.add(2, &JsonValue::Bool(true));
    types.add(3, &JsonValue::Bool(false));
    types.add(3, &JsonValue::Bool(true));
    types.add(4, &num(1));
    types.add(5, &string("s"));
    types.add(6, &obj(vec![]));
    types.add(7, &JsonValue::Array(vec![num(1), JsonValue::Null]));
    let in_order = |mut v: Vec<u64>| {
        v.sort();
        v
    };
    assert_eq!(types.null.files(), vec![1]);
    assert_eq!(in_order(types.bool.files()), vec![2, 3, 3]);
    assert_eq!(types.number.files(), vec![4]);
    assert_eq!(types.string.files(), vec![5]);
    assert_eq!(types.object.files(), vec![6]);
    assert_eq!(types.array.files(), vec![7, 7]);
    assert_eq!(types.array.count(), 2);
    assert_eq!(in_order(types.files()), vec![1, 2, 3, 3, 4, 5, 6, 7, 7]);
    assert_eq!(KMArray::new().files(), Vec::<u64>::new());
    assert_eq!(KMArray::new().count(), 0);
}
