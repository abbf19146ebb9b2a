use std::collections::BTreeMap;

use scirust_sciagent::elastic_id::{PackedRule, PairKey};
use scirust_sciagent::rule_lookup_tables::{
    build_queries, layouts_agree, verify_lookup_parity, verify_parity, CsrAos, CsrRuleTable,
    CsrSoa, FlatRuleTable,
};

fn entries() -> Vec<(PairKey, PackedRule)> {
    vec![
        (PairKey::new(7, 3), PackedRule::new(2, 12)),
        (PairKey::new(1, 9), PackedRule::new(0, 10)),
        (PairKey::new(1, 2), PackedRule::new(1, 11)),
    ]
}

#[test]
fn flat_lookup_matches_tree_for_hits_and_misses() {
    let entries = entries();
    let tree = entries.iter().map(|(key, rule)| (key.raw(), *rule)).collect::<BTreeMap<_, _>>();
    let flat = FlatRuleTable::from_entries(entries.clone()).unwrap();
    let queries = build_queries(&entries);
    verify_lookup_parity(&tree, &flat, &queries).unwrap();
    assert_eq!(flat.get(PairKey::new(1, 9)), Some(PackedRule::new(0, 10)));
    assert_eq!(flat.get(PairKey::new(1, 3)), None);
}

#[test]
fn tokenizer_rule_table_probe_duplicate_pair_keys_are_rejected() {
    let key = PairKey::new(1, 2);
    assert!(FlatRuleTable::from_entries(vec![(key, PackedRule::new(0, 3)), (key, PackedRule::new(1, 4))]).is_err());
}

#[test]
fn duplicate_key_message_names_the_smallest_duplicate() {
    let message = FlatRuleTable::from_entries(vec![
        (PairKey::new(2, 0), PackedRule::new(0, 3)),
        (PairKey::new(0, 7), PackedRule::new(1, 4)),
        (PairKey::new(2, 0), PackedRule::new(2, 5)),
        (PairKey::new(0, 7), PackedRule::new(3, 6)),
    ])
    .unwrap_err();
    assert_eq!(message, "duplicate merge pair key 7");
}

#[test]
fn csr_matches_flat_for_hits_and_misses() {
    let entries = entries();
    let flat = FlatRuleTable::from_entries(entries.clone()).unwrap();
    let csr = CsrRuleTable::from_entries(entries.clone(), 16).ok().unwrap();
    verify_parity(&flat, &csr, &build_queries(&entries)).unwrap();
    assert_eq!(csr.get_binary(PairKey::new(7, 3)), Some(PackedRule::new(2, 12)));
    assert_eq!(csr.get_linear(PairKey::new(7, 3)), Some(PackedRule::new(2, 12)));
    assert_eq!(csr.get_binary(PairKey::new(20, 3)), None);
}

#[test]
fn csr_offsets_bound_each_left_id() {
    let csr = CsrRuleTable::from_entries(entries(), 16).ok().unwrap();
    assert_eq!(csr.slice(1).len(), 2);
    assert_eq!(csr.slice(7).len(), 1);
    assert!(csr.slice(15).is_empty());
    assert!(csr.slice(16).is_empty());
    assert_eq!(csr.slice(1)[0].0, 2);
    assert_eq!(csr.slice(1)[1].0, 9);
}

#[test]
fn tokenizer_csr_rule_probe_duplicate_pair_keys_are_rejected() {
    let key = PairKey::new(1, 2);
    assert!(CsrRuleTable::from_entries(vec![(key, PackedRule::new(0, 3)), (key, PackedRule::new(1, 4))], 8).is_err());
}

#[test]
fn csr_rejects_empty_vocab_and_out_of_range_left_ids() {
    assert_eq!(CsrRuleTable::from_entries(entries(), 0).err().unwrap(), "vocab must not be empty");
    assert_eq!(
        CsrRuleTable::from_entries(entries(), 5).err().unwrap(),
        "left token id 7 exceeds vocab size 5"
    );
    assert_eq!(CsrSoa::build(&entries(), 5).err().unwrap(), "left id 7 exceeds vocab size 5");
}

#[test]
fn soa_matches_aos_hits_and_misses() {
    let entries = entries();
    let aos = CsrAos::build(&entries, 16).ok().unwrap();
    let soa = CsrSoa::build(&entries, 16).ok().unwrap();
    for query in build_queries(&entries) {
        assert_eq!(aos.get(query), soa.get(query));
    }
    assert!(layouts_agree(&aos, &soa, &build_queries(&entries)));
    assert_eq!(soa.get(PairKey::new(1, 2)), Some(PackedRule::new(1, 11)));
}

#[test]
fn soa_payload_removes_aos_padding() {
    if std::mem::size_of::<(u32, PackedRule)>() == 16 {
        assert_eq!(std::mem::size_of::<u32>() + std::mem::size_of::<PackedRule>(), 12);
    }
}

#[test]
fn queries_pair_each_key_with_a_shifted_miss() {
    let queries = build_queries(&entries());
    assert_eq!(queries.len(), 6);
    assert_eq!(queries[0], PairKey::new(7, 3));
    assert_eq!(queries[1], PairKey::new(7, 3u32.wrapping_add(0x9e37_79b9)));
}

#[test]
fn parity_checks_name_the_first_differing_query() {
    let entries = entries();
    let fewer = vec![entries[0], entries[1]];
    let flat = FlatRuleTable::from_entries(entries.clone()).unwrap();
    let csr = CsrRuleTable::from_entries(fewer.clone(), 16).ok().unwrap();
    let queries = build_queries(&entries);
    let expected = format!("lookup mismatch for pair key {}", PairKey::new(1, 2).raw());
    assert_eq!(verify_parity(&flat, &csr, &queries), Err(expected.clone()));
    let tree = fewer.iter().map(|(key, rule)| (key.raw(), *rule)).collect::<BTreeMap<_, _>>();
    assert_eq!(verify_lookup_parity(&tree, &flat, &queries), Err(expected));
}

#[test]
fn layouts_disagree_when_their_entries_differ() {
    let entries = entries();
    let aos = CsrAos::build(&entries, 16).ok().unwrap();
    let soa = CsrSoa::build(&entries[..2], 16).ok().unwrap();
    assert!(!layouts_agree(&aos, &soa, &build_queries(&entries)));
    assert!(layouts_agree(&aos, &soa, &build_queries(&entries[..2])));
}
