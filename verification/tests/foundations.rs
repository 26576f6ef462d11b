use dewdb::endpoint::{endpoint_of, list_names, node_key, others, same_endpoint};
use dewdb::escape::{decode_token, encode_path_segment, encode_token};
use dewdb::json::{Json, JsonNumber};
use dewdb::key_set::KeySet;
use dewdb::model::{embed_key, err_json, KeyMode};
use dewdb::name_map::{sorted_distinct, NameMap};
use dewdb::number::is_less;
use dewdb::ring::{hash_key, hash_text, validate_shard_ring, HashRing, RingShard, ShardInfo};
use dewdb::sorting::{join_texts, sort_texts};
use dewdb::text::{decimal, has_part, split, trimmed};
use dewdb::wire::{decode_cursor, encode_cursor, read_json, write_json};

fn texts(v: &[&str]) -> Vec<String> {
    v.iter().map(|s| s.to_string()).collect()
}

#[test]
fn a_node_is_its_endpoint_whatever_it_is_called() {
    assert_eq!(endpoint_of("http://a:1/"), "a:1");
    assert_eq!(endpoint_of("a:1"), "a:1");
    assert!(same_endpoint("http://A:1", "https://a:1//"));
    assert!(!same_endpoint("http://a:1", "http://a:2"));
    assert_eq!(node_key("http://A:1/"), "a:1");
    assert!(list_names(&texts(&["http://a", "http://b"]), "B"));
    assert_eq!(others(&texts(&["http://a", "http://b", "a/"]), "http://a"), texts(&["http://b"]));
}

#[test]
fn a_path_segment_keeps_every_byte() {
    assert_eq!(encode_path_segment("az-AZ_09.~"), "az-AZ_09.~");
    assert_eq!(encode_path_segment("a b/ü%"), "a%20b%2F%C3%BC%25");
    assert_eq!(encode_path_segment(""), "");
}

#[test]
fn a_token_reads_back_and_nothing_else_does() {
    for bytes in [&b""[..], b"f", b"fo", b"foo", b"foob", &[0, 255, 254, 63, 62]] {
        let token = encode_token(bytes);
        assert!(token.bytes().all(|b| b.is_ascii_alphanumeric() || b == b'-' || b == b'_'), "{}", token);
        assert_eq!(decode_token(&token).as_deref(), Some(bytes));
    }
    assert_eq!(encode_token(b"foob"), "Zm9vYg");
    assert_eq!(decode_token("Zm9vYh"), None, "bits that no byte has");
    assert_eq!(decode_token("Z"), None);
    assert_eq!(decode_token("Zm9v=g"), None);
}

#[test]
fn the_lesser_of_two_numbers_is_told_exactly() {
    let rising = [
        JsonNumber::Double(f64::MIN.to_bits()),
        JsonNumber::Double((-1e19f64).to_bits()),
        JsonNumber::NegInt(i64::MIN),
        JsonNumber::NegInt(i64::MIN + 1),
        JsonNumber::Double((-2.5f64).to_bits()),
        JsonNumber::NegInt(-2),
        JsonNumber::Double((-5e-324f64).to_bits()),
        JsonNumber::PosInt(0),
        JsonNumber::Double(5e-324f64.to_bits()),
        JsonNumber::Double(0.999f64.to_bits()),
        JsonNumber::PosInt(1),
        JsonNumber::Double(1.5f64.to_bits()),
        JsonNumber::PosInt(1 << 53),
        JsonNumber::PosInt((1 << 53) + 1),
        JsonNumber::Double((((1u64 << 53) + 2) as f64).to_bits()),
        JsonNumber::PosInt(u64::MAX - 1),
        JsonNumber::PosInt(u64::MAX),
        JsonNumber::Double((u64::MAX as f64).to_bits()),
        JsonNumber::Double(f64::MAX.to_bits()),
    ];
    for (i, a) in rising.iter().enumerate() {
        for (j, b) in rising.iter().enumerate() {
            assert_eq!(is_less(a, b), i < j, "{:?} and {:?}", a, b);
        }
    }
    let zero = JsonNumber::Double((-0.0f64).to_bits());
    assert!(!is_less(&zero, &JsonNumber::PosInt(0)) && !is_less(&JsonNumber::PosInt(0), &zero));
    let whole = JsonNumber::Double(9007199254740992f64.to_bits());
    assert!(!is_less(&whole, &JsonNumber::PosInt(1 << 53)) && is_less(&whole, &JsonNumber::PosInt((1 << 53) + 1)));
}

#[test]
fn numbers_are_read_as_they_are_written() {
    assert_eq!(read_json("42"), Some(Json::Number(JsonNumber::PosInt(42))));
    let number = |t: &str| match read_json(t) {
        Some(Json::Number(n)) => n,
        other => panic!("not a number: {:?}", other),
    };
    assert_eq!(number("-3"), JsonNumber::NegInt(-3));
    assert_eq!(number("2.5"), JsonNumber::Double(2.5f64.to_bits()));
    assert_eq!(number("-0.0"), JsonNumber::Double((-0.0f64).to_bits()));
    assert_eq!(number("18446744073709551615"), JsonNumber::PosInt(u64::MAX));
    assert_eq!(read_json("nope"), None);
    assert_eq!(read_json("[1,]"), None);
}

#[test]
fn a_simple_value_is_written_and_read_back() {
    let j = read_json(r#"{"b":{"x":"q\"\n"},"a":18446744073709551615,"c":null}"#).unwrap();
    let text = write_json(&j);
    assert_eq!(text, r#"{"a":18446744073709551615,"b":{"x":"q\"\n"},"c":null}"#);
    assert_eq!(read_json(&text).as_ref(), Some(&j));
    assert_eq!(decode_cursor(&encode_cursor(&j)), Some(j));
    assert_eq!(decode_cursor(&encode_token(b"\xff")), None);
}

/// An object whose first key is the mark is read as the text under it, so a value that holds one is not
/// given back.
#[test]
fn a_marked_object_is_read_as_the_text_in_it() {
    let marked = Json::object(vec![("$serde_json::private::RawValue".to_string(), Json::Str("[1]".to_string()))]);
    assert_eq!(read_json(&write_json(&marked)), read_json("[1]"));
    let behind = Json::object(vec![
        ("$".to_string(), Json::Null),
        ("$serde_json::private::RawValue".to_string(), Json::Str("[1]".to_string())),
    ]);
    assert_eq!(read_json(&write_json(&behind)), Some(behind), "only the first key is a mark");
}

#[test]
fn the_hash_of_a_key_is_fixed() {
    assert_eq!(hash_text(""), 0xef46db3751d8e999);
    assert_eq!(hash_text("a"), 0xd24ec4f1a98c6e5b);
    assert_eq!(hash_key("t", "k1"), hash_text("t:k1"));
}

fn range(start: u64, end: u64, url: &str) -> ShardInfo {
    ShardInfo { start_hash: start, end_hash: end, node_url: url.to_string(), replica_urls: vec![] }
}

#[test]
fn a_shard_map_covers_every_hash_once() {
    assert!(validate_shard_ring(&[range(0, 0, "http://a")]).is_ok());
    assert!(validate_shard_ring(&[range(20, 0, "http://b"), range(0, 20, "http://a")]).is_ok(), "in any order");
    assert!(validate_shard_ring(&[range(10, 20, "http://a"), range(20, 10, "http://b")]).is_err(), "a range does not wrap round");
    assert!(validate_shard_ring(&[range(0, 10, "http://a")]).unwrap_err().contains("uncovered"));
    assert!(validate_shard_ring(&[range(0, 10, "http://a"), range(5, 0, "http://b")]).is_err());
    assert!(validate_shard_ring(&[]).is_err());
}

#[test]
fn adding_a_group_to_a_ring_moves_keys_to_it_only() {
    let ring = |names: &[&str]| HashRing {
        vnodes: 64,
        shards: names.iter().map(|n| RingShard { node_url: format!("http://{}", n), replica_urls: vec![] }).collect(),
    };
    let (two, three) = (ring(&["a", "b"]).build(), ring(&["a", "b", "c"]).build());
    for i in 0..500 {
        let h = hash_key("t", &format!("k{}", i));
        let (now, next) = (two.owner(h).unwrap(), three.owner(h).unwrap());
        assert!(now.node_url == next.node_url || next.node_url == "http://c");
    }
    assert!(ring(&[]).validate().is_err());
    assert!(ring(&["a", "a"]).validate().is_err());
    assert!(HashRing { vnodes: 0, ..ring(&["a"]) }.validate().is_err());
    assert!(ring(&["a"]).validate().is_ok());
}

#[test]
fn names_are_kept_in_order_each_once() {
    let mut m = NameMap::new();
    for (k, v) in [("b", 1), ("a", 2), ("b", 3)] {
        m.insert(k.to_string(), v);
    }
    assert_eq!((m.len(), m.key_at(0).as_str(), *m.value_at(1)), (2, "a", 3));
    assert_eq!(m.remove("a"), Some(2));
    assert_eq!(m.remove("a"), None);
    assert!(!m.holds("a"));
    m.clear();
    assert_eq!(m.len(), 0);
    assert_eq!(sorted_distinct(&texts(&["é", "b", "a", "b"])), texts(&["a", "b", "é"]));
    assert_eq!(sort_texts(texts(&["b", "a", "b"])), texts(&["a", "b", "b"]));
    assert_eq!(join_texts(&texts(&["a", "b"]), ", "), "a, b");

    let mut s = KeySet::new();
    s.insert("t", "k");
    s.insert("t", "k");
    s.insert("u", "k");
    assert_eq!(s.len(), 2);
    assert!(s.contains("u", "k") && !s.contains("t", "u"));
}

#[test]
fn text_is_taken_apart_and_written() {
    assert_eq!(split("a,,b", ','), texts(&["a", "", "b"]));
    assert_eq!(trimmed("\u{a0} a b\t\n"), "a b");
    assert!(has_part("abcabd", "abd") && !has_part("ab", "abc") && has_part("a", ""));
    assert_eq!((decimal(0), decimal(u64::MAX)), ("0".to_string(), u64::MAX.to_string()));
}

#[test]
fn keys_come_in_three_shapes() {
    assert_eq!(KeyMode::parse("true"), Ok(KeyMode::Parallel));
    assert_eq!(KeyMode::parse("false"), Ok(KeyMode::Omitted));
    assert_eq!(KeyMode::parse("embed"), Ok(KeyMode::Embedded));
    assert_eq!(KeyMode::parse("yes"), Err("keys must be `true`, `false` or `embed`, not `yes`".to_string()));
    assert_eq!(KeyMode::default(), KeyMode::Omitted);
    assert_eq!(embed_key("k", Json::Null), read_json(r#"{"id":"k","value":null}"#).unwrap());
    assert_eq!(err_json("no".to_string()), read_json(r#"{"error":"no"}"#).unwrap());
}
