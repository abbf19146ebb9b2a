use scirust_sciagent::autotune_cases::{
    add_file_cases, byte_id_table, check_probe_coverage, piece_ids, quotas_met,
};
use scirust_sciagent::byte_units::byte_to_unit;
use scirust_sciagent::elastic_autotune::CalibrationCase;

fn reversible_entries() -> Vec<(String, usize)> {
    (0u8..=255)
        .map(|b| (byte_to_unit(b).to_string(), 4 + usize::from(b)))
        .collect()
}

#[test]
fn byte_table_maps_every_unit_to_its_id() {
    let table = byte_id_table(&reversible_entries());
    assert_eq!(table.len(), 256);
    assert_eq!(table[usize::from(b'a')], Some(4 + 97));
    assert_eq!(table[200], Some(204));
}

#[test]
fn missing_byte_token_is_reported_by_value() {
    let mut entries = reversible_entries();
    entries.retain(|(_, id)| *id != 4 + 0xC3);
    let table = byte_id_table(&entries);
    assert_eq!(table[0xC3], None);
    let bytes = "aé".as_bytes();
    assert_eq!(piece_ids(bytes, 1, &table).unwrap(), vec![4 + 97]);
    assert_eq!(
        piece_ids(bytes, 2, &table).unwrap_err(),
        "tokenizer missing byte token 195"
    );
}

#[test]
fn files_fill_probe_quotas_in_order() {
    let table = byte_id_table(&reversible_entries());
    let lengths = [2usize, 4, 8];
    let mut counts = vec![0usize; lengths.len()];
    let mut cases: Vec<CalibrationCase> = Vec::new();
    add_file_cases(b"abcde", &lengths, 1, &table, &mut counts, &mut cases).unwrap();
    assert_eq!(counts, vec![1, 1, 0]);
    assert_eq!(cases.len(), 2);
    assert_eq!(cases[0].piece_len, 2);
    assert_eq!(cases[0].input_ids, vec![4 + 97, 4 + 98]);
    assert_eq!(cases[1].piece_len, 4);
    assert!(!quotas_met(&counts, 1));
    assert_eq!(
        check_probe_coverage(&counts, &lengths).unwrap_err(),
        "no corpus file was large enough for probe length 8"
    );
    add_file_cases(b"0123456789", &lengths, 1, &table, &mut counts, &mut cases).unwrap();
    assert_eq!(counts, vec![1, 1, 1]);
    assert_eq!(cases.len(), 3);
    assert_eq!(cases[2].input_ids.len(), 8);
    assert!(quotas_met(&counts, 1));
    assert!(check_probe_coverage(&counts, &lengths).is_ok());
}
