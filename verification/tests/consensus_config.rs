use dewdb::consensus::config::{
    is_system_collection, valid_collection_name, voter_count, Configuration, CONFIG_LOG, MAX_COLLECTION_NAME_LEN,
};
use dewdb::endpoint::endpoint_of;

fn urls(names: &[&str]) -> Vec<String> {
    names.iter().map(|n| format!("http://{}", n)).collect()
}

#[test]
fn a_simple_configuration_is_a_plain_majority() {
    let c = Configuration::simple(urls(&["a", "b", "c"]));

    assert!(!c.is_joint());
    assert!(!c.has_quorum(&urls(&["a"])), "one of three is not a majority");
    assert!(c.has_quorum(&urls(&["a", "b"])));
    assert!(c.has_quorum(&urls(&["a", "b", "c"])));
}

#[test]
fn a_joint_configuration_needs_a_majority_of_each_half() {
    let c = Configuration::joint(urls(&["a", "b", "c"]), urls(&["c", "d", "e"]));

    assert!(c.is_joint());
    assert!(!c.has_quorum(&urls(&["a", "b"])), "a majority of the old half alone decides nothing");
    assert!(!c.has_quorum(&urls(&["d", "e"])), "nor a majority of the new half alone");
    assert!(c.has_quorum(&urls(&["a", "b", "d", "e"])));
    assert!(c.has_quorum(&urls(&["a", "c", "d"])), "c counts in both halves at once");
}

#[test]
fn the_union_is_not_the_quorum() {
    let c = Configuration::joint(urls(&["a", "b", "c"]), urls(&["d", "e", "f"]));

    // Four of the six members, and still not a decision: it is three old plus one new.
    assert_eq!(c.members().len(), 6);
    assert!(!c.has_quorum(&urls(&["a", "b", "c", "d"])),
        "counting the union is exactly the split brain the joint entry exists to close");
}

#[test]
fn members_spans_both_halves_without_duplicating_the_overlap() {
    let c = Configuration::joint(urls(&["a", "b"]), urls(&["b", "c"]));

    assert_eq!(c.members(), urls(&["b", "c", "a"]));
    assert!(c.contains("b"), "identity is the endpoint, so an unschemed url still resolves");
    assert!(!c.contains("http://d"));
}

#[test]
fn the_quorum_lsn_is_the_lower_of_the_two_medians() {
    let c = Configuration::joint(urls(&["a", "b", "c"]), urls(&["c", "d", "e"]));

    // Old half holds 9 at a majority; the new half has only c there.
    let held = |url: &str| match endpoint_of(url) {
        "a" => 9, "b" => 9, "c" => 9, "d" => 0, "e" => 0,
        _ => 0,
    };
    assert_eq!(c.quorum_lsn(held), 0,
        "an entry the incoming half does not hold is one its next leader can overwrite");

    let caught_up = |url: &str| match endpoint_of(url) {
        "a" => 9, "b" => 9, "c" => 9, "d" => 9, "e" => 0,
        _ => 0,
    };
    assert_eq!(c.quorum_lsn(caught_up), 9);
}

#[test]
fn a_lone_voter_commits_on_its_own() {
    let c = Configuration::simple(urls(&["a"]));
    assert_eq!(c.quorum_lsn(|_| 7), 7);
    assert!(c.has_quorum(&urls(&["a"])));
}

#[test]
fn an_empty_half_decides_nothing_and_blocks_nothing() {
    // Reachable only from a hand-written view; the arithmetic must not read as "always short".
    let c = Configuration::simple(Vec::new());
    assert!(c.has_quorum(&[]));
    assert_eq!(c.quorum_lsn(|_| 5), 0);
}

#[test]
fn the_target_of_a_joint_entry_is_its_incoming_half() {
    let c = Configuration::joint(urls(&["a", "b", "c"]), urls(&["b", "c", "d"]));
    assert_eq!(c.target(), Configuration::simple(urls(&["b", "c", "d"])));
    assert!(!c.target().is_joint());
}

/// A stored entry, so the constructors are bypassed the way a decoded frame bypasses them.
fn stored(outgoing: Option<&[&str]>, voters: &[&str]) -> Configuration {
    Configuration { voters: urls(voters), outgoing: outgoing.map(urls) }
}

#[test]
fn ib043_a_duplicated_voter_does_not_inflate_a_majority() {
    let c = stored(None, &["a", "a", "d"]);

    assert!(!c.has_quorum(&urls(&["a"])),
        "two entries naming one node let it reach the threshold its own duplicate raised");
    assert!(c.has_quorum(&urls(&["a", "d"])), "both physical nodes is the majority of two");
    assert_eq!(c.quorum_lsn(|url| if endpoint_of(url) == "a" { 9 } else { 0 }), 0,
        "a duplicated voter's lsn entered the median twice");

    let aliased = Configuration {
        voters: vec!["http://A:1".into(), "http://a:1/".into(), "http://d:1".into()],
        outgoing: None,
    };
    assert!(!aliased.has_quorum(&["http://a:1".to_string()]),
        "identity is the endpoint, so two spellings are one voter");
}

#[test]
fn ib043_a_duplicate_in_either_half_of_a_stored_joint_entry_is_one_voter() {
    let c = stored(Some(&["a", "a", "b"]), &["c", "c", "d"]);

    assert!(!c.has_quorum(&urls(&["a", "c"])), "neither half is decided by one node of two");
    assert!(c.has_quorum(&urls(&["a", "b", "c", "d"])));
}

#[test]
fn ib043_constructed_and_decoded_configurations_name_each_node_once() {
    assert_eq!(Configuration::simple(urls(&["a", "a", "d"])).voters, urls(&["a", "d"]));

    let joint = Configuration::joint(urls(&["a", "a", "b"]), urls(&["b", "b"]));
    assert_eq!(joint.voters, urls(&["b"]));
    assert_eq!(joint.outgoing, Some(urls(&["a", "b"])));
    assert_eq!(joint.target(), Configuration::simple(urls(&["b"])));
    assert_eq!(voter_count(&urls(&["a", "a", "d"])), 2);

    let decoded = stored(Some(&["a", "a", "b"]), &["c", "c"]).canonicalized();
    assert_eq!(decoded, Configuration::joint(urls(&["a", "b"]), urls(&["c"])));
    assert_eq!(decoded.clone().canonicalized(), decoded, "canonicalising is idempotent");
}

#[test]
fn system_collections_are_the_underscore_prefix() {
    assert!(is_system_collection(CONFIG_LOG));
    assert!(!is_system_collection("users"));
    assert!(!is_system_collection("my_collection"));
}

#[test]
fn a_valid_name_is_one_ordinary_path_component() {
    for name in ["users", "my_collection", "app.events", "a-b", CONFIG_LOG, "x"] {
        assert!(valid_collection_name(name), "{}", name);
    }
    // The reserved rule is separate: `_config` is a well-formed name that the API refuses.
    for name in ["", "..", "../x", "a/b", r"a\b", "a b", "a\0b", "caf\u{e9}",
                 ".hidden", "t.tmp", "t.old", "a:b"] {
        assert!(!valid_collection_name(name), "{:?}", name);
    }
    assert!(valid_collection_name(&"a".repeat(MAX_COLLECTION_NAME_LEN)));
    assert!(!valid_collection_name(&"a".repeat(MAX_COLLECTION_NAME_LEN + 1)));
}

#[test]
fn ib009_canonical_names_reject_case_and_filesystem_aliases() {
    for name in [
        "Orders", "orders.", "orders..", "users_A", "CON", "con", "nul", "aux", "prn",
        "com1", "lpt1", "nul.events", "con.log",
    ] {
        assert!(!valid_collection_name(name), "alias {:?} must be rejected", name);
    }
    for name in ["orders", "users_a", "app.events-1", "a-b", CONFIG_LOG] {
        assert!(valid_collection_name(name), "canonical {:?} should be accepted", name);
    }
}
