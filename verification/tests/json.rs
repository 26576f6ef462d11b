use dewdb::json::{get_path_value, json_cmp, merge_patch, parse_fields, project, Json};
use dewdb::wire::read_json;
use std::cmp::Ordering;

fn json(text: &str) -> Json {
    read_json(text).unwrap()
}

#[test]
fn json_cmp_orders_across_and_within_types() {
    assert_eq!(json_cmp(&json("1"), &json("2")), Ordering::Less);
    assert_eq!(json_cmp(&json(r#""b""#), &json(r#""a""#)), Ordering::Greater);
    assert_eq!(json_cmp(&json("false"), &json("true")), Ordering::Less);
    assert_eq!(json_cmp(&json("null"), &json("0")), Ordering::Less, "null sorts before numbers");
    assert_eq!(json_cmp(&json("5"), &json(r#""5""#)), Ordering::Less, "numbers sort before strings");
}

/// Objects of one size are not equal: a sort on an object-valued field has to order each shard's
/// page the same way.
#[test]
fn objects_have_a_total_order_not_a_size_comparison() {

    assert_eq!(json_cmp(&json(r#"{"a": 1}"#), &json(r#"{"a": 2}"#)), Ordering::Less, "same key, ordered value");
    assert_eq!(json_cmp(&json(r#"{"a": 1}"#), &json(r#"{"b": 1}"#)), Ordering::Less, "keys decide before values");
    assert_eq!(json_cmp(&json(r#"{"a": 1}"#), &json(r#"{"a": 1}"#)), Ordering::Equal);
    assert_eq!(json_cmp(&json(r#"{"a": 1}"#), &json(r#"{"a": 1, "b": 2}"#)), Ordering::Less, "a prefix sorts first");
    assert_eq!(json_cmp(&json(r#"{"a": {"n": 2}}"#), &json(r#"{"a": {"n": 1}}"#)), Ordering::Greater, "recurses");

    // Written in opposite key orders: the map is sorted, so the comparison cannot see that.
    let a = json(r#"{"x": 1, "y": 2}"#);
    let b = json(r#"{"y": 2, "x": 1}"#);
    assert_eq!(json_cmp(&a, &b), Ordering::Equal, "shards must agree whatever the client sent");
}

/// A merge across shards is only defined if the order is one: no ties between unequal values,
/// and antisymmetric and transitive across every pair.
#[test]
fn json_cmp_is_a_total_order_over_a_mixed_set() {

    let values = vec![
        json("null"), json("false"), json("true"), json("-1"), json("0"), json("1"),
        json(r#""""#), json(r#""a""#), json(r#""b""#),
        json("[]"), json("[1]"), json("[1, 2]"), json("[2]"),
        json("{}"), json(r#"{"a": 1}"#), json(r#"{"a": 2}"#), json(r#"{"a": 1, "b": 1}"#), json(r#"{"b": 1}"#),
    ];

    for a in &values {
        for b in &values {
            assert_eq!(json_cmp(a, b).reverse(), json_cmp(b, a), "antisymmetry: {:?} vs {:?}", a, b);
            if a != b {
                assert_ne!(json_cmp(a, b), Ordering::Equal, "distinct values tied: {:?} vs {:?}", a, b);
            }
            for c in &values {
                if json_cmp(a, b) != Ordering::Greater && json_cmp(b, c) != Ordering::Greater {
                    assert_ne!(json_cmp(a, c), Ordering::Greater,
                        "transitivity: {:?} <= {:?} <= {:?} but not {:?} <= {:?}", a, b, c, a, c);
                }
            }
        }
    }

    let mut sorted = values.clone();
    sorted.sort_by(json_cmp);
    let mut reversed = values;
    reversed.reverse();
    reversed.sort_by(json_cmp);
    assert_eq!(sorted, reversed, "the sort must not depend on the input order");
}

#[test]
fn projection_keeps_only_requested_paths() {
    let doc = json(r#"{"a": 1, "b": {"c": 2, "d": 3}, "e": 4}"#);

    let flat = project(&doc, &["a".to_string(), "e".to_string()]);
    assert_eq!(flat, json(r#"{"a": 1, "e": 4}"#));

    let nested = project(&doc, &["b.c".to_string()]);
    assert_eq!(nested, json(r#"{"b": {"c": 2}}"#), "nested path projects into nested object");

    let missing = project(&doc, &["a".to_string(), "zzz".to_string()]);
    assert_eq!(missing, json(r#"{"a": 1}"#), "missing fields are omitted");

    let empty = project(&doc, &[]);
    assert_eq!(empty, doc, "empty projection returns the full doc");
}

#[test]
fn merge_patch_follows_rfc7386() {

    let mut basic = json(r#"{"a": "b", "c": {"d": "e", "f": "g"}}"#);
    merge_patch(&mut basic, &json(r#"{"a": "z", "c": {"f": null}}"#));
    assert_eq!(basic, json(r#"{"a": "z", "c": {"d": "e"}}"#), "null removes a member, siblings survive");

    let mut arrays = json(r#"{"a": [1, 2, 3]}"#);
    merge_patch(&mut arrays, &json(r#"{"a": [4]}"#));
    assert_eq!(arrays, json(r#"{"a": [4]}"#), "arrays are replaced wholesale, never element-merged");

    let mut scalar_to_object = json(r#"{"a": "flat"}"#);
    merge_patch(&mut scalar_to_object, &json(r#"{"a": {"b": 1}}"#));
    assert_eq!(scalar_to_object, json(r#"{"a": {"b": 1}}"#), "object patch overwrites a scalar");

    let mut created = json("{}");
    merge_patch(&mut created, &json(r#"{"a": {"b": 1, "c": null}}"#));
    assert_eq!(created, json(r#"{"a": {"b": 1}}"#), "nulls are dropped while creating a new member");

    let mut whole = json(r#"{"a": 1}"#);
    merge_patch(&mut whole, &json(r#""replaced""#));
    assert_eq!(whole, json(r#""replaced""#), "a non-object patch replaces the whole target");

    let mut deep = json(r#"{"x": {"y": {"z": 1, "keep": true}}}"#);
    merge_patch(&mut deep, &json(r#"{"x": {"y": {"z": 2}}}"#));
    assert_eq!(deep, json(r#"{"x": {"y": {"z": 2, "keep": true}}}"#), "deep merge preserves untouched siblings");

    let mut absent_delete = json(r#"{"a": 1}"#);
    merge_patch(&mut absent_delete, &json(r#"{"missing": null}"#));
    assert_eq!(absent_delete, json(r#"{"a": 1}"#), "deleting an absent member is a no-op");

    let mut noop = json(r#"{"a": 1}"#);
    merge_patch(&mut noop, &json("{}"));
    assert_eq!(noop, json(r#"{"a": 1}"#), "an empty patch changes nothing");
}

#[test]
fn merge_patch_never_leaves_null_placeholders_in_new_subtrees() {
    let mut doc = json(r#"{"keep": 1}"#);
    merge_patch(&mut doc, &json(r#"{"new": {"deep": {"k": "v", "gone": null}}}"#));
    assert_eq!(doc, json(r#"{"keep": 1, "new": {"deep": {"k": "v"}}}"#));
}

#[test]
fn numbers_compare_by_value_however_they_are_written() {
    assert_eq!(json_cmp(&json("1"), &json("1.0")), Ordering::Equal);
    assert_eq!(json_cmp(&json("-0.0"), &json("0")), Ordering::Equal);
    assert_eq!(json_cmp(&json("-2.5"), &json("-2")), Ordering::Less);
    assert_eq!(json_cmp(&json("1e300"), &json("18446744073709551615")), Ordering::Greater);
    assert_eq!(json_cmp(&json("-9223372036854775808"), &json("-1e-7")), Ordering::Less);
    assert_eq!(json_cmp(&json("9007199254740993"), &json("9007199254740992")), Ordering::Greater, "no tie between unequal values");
    assert_eq!(json_cmp(&json("9007199254740993"), &json("9007199254740992.0")), Ordering::Greater);
    assert_eq!(json_cmp(&json("18446744073709551614"), &json("18446744073709551615")), Ordering::Less);
    assert_eq!(json_cmp(&json("18446744073709551615"), &json("18446744073709551616.0")), Ordering::Less);
}

#[test]
fn applying_a_patch_twice_changes_nothing_more() {
    let patch = json(r#"{"a": {"b": null, "c": {"d": 1}}, "e": null, "f": [1, null], "g": {}}"#);
    for text in [r#"{"a": {"b": 2, "c": 3}, "e": 4}"#, "null", "7", r#"{"a": 1, "g": {"h": 2}}"#] {
        let mut doc = json(text);
        merge_patch(&mut doc, &patch);
        let once = doc.clone();
        merge_patch(&mut doc, &patch);
        assert_eq!(doc, once);
    }
}

#[test]
fn a_path_is_followed_member_by_member() {
    let doc = json(r#"{"a": {"b": [1]}, "c": 3}"#);
    assert_eq!(get_path_value(&doc, "a.b"), Some(&json("[1]")));
    assert_eq!(get_path_value(&doc, "c"), Some(&json("3")));
    assert_eq!(get_path_value(&doc, "c.d"), None);
    assert_eq!(get_path_value(&doc, "a.x"), None);
}

#[test]
fn fields_are_trimmed_and_blank_ones_dropped() {
    assert_eq!(parse_fields(Some(" a, b.c ,,  ")), vec!["a", "b.c"]);
    assert!(parse_fields(None).is_empty());
}

#[test]
fn an_object_keeps_its_members_in_key_order() {
    let o = Json::object(vec![
        ("b".to_string(), Json::Null), ("a".to_string(), Json::Bool(true)), ("b".to_string(), Json::Bool(false)),
    ]);
    assert_eq!(o, json(r#"{"a": true, "b": false}"#));
    assert_eq!(o.get("b").and_then(|b| b.as_bool()), Some(false));
    assert!(o.get("z").is_none());
}
