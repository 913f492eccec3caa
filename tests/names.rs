use sound_tool::names::{
    choose_replacement, parse_wem_name, parse_wem_stem, wem_file_name, with_new_suffix, IdOrIndex,
    ReplacedBy, UNSET_INDEX,
};

#[test]
fn test_wem_name_regex() {
    let cases = [
        ("[001]12345678.wem", (1, 12345678)),
        ("[012]98765432.wem", (12, 98765432)),
        ("[999]99999999.wem", (999, 99999999)),
        ("[000]00000000.wem", (0, 0)),
    ];
    for (name, expected) in cases {
        let (idx, id) = parse_wem_name(name).unwrap();
        assert_eq!(idx, expected.0);
        assert_eq!(id, expected.1);
    }
}

#[test]
fn name_without_index_has_unset_index() {
    assert_eq!(parse_wem_name("12345678.wem"), Some((UNSET_INDEX, 12345678)));
    assert_eq!(parse_wem_stem("12345678"), Some((UNSET_INDEX, 12345678)));
}

#[test]
fn names_outside_the_convention_are_rejected() {
    assert_eq!(parse_wem_name("abc.wem"), None);
    assert_eq!(parse_wem_name("[001].wem"), None);
    assert_eq!(parse_wem_name("[001"), None);
    assert_eq!(parse_wem_name("[]5"), None);
    assert_eq!(parse_wem_name(""), None);
    // An id past u32::MAX fails; an index past it reads as unset.
    assert_eq!(parse_wem_name("[1]4294967296"), None);
    assert_eq!(parse_wem_name("[4294967296]7"), Some((UNSET_INDEX, 7)));
}

#[test]
fn names_are_trimmed_before_parsing() {
    assert_eq!(parse_wem_name("  [003]16088711 "), Some((3, 16088711)));
    assert_eq!(parse_wem_stem("  [003]16088711 "), None);
}

#[test]
fn replacement_keys_parse_as_id_or_index() {
    assert_eq!(IdOrIndex::from_str("[3]"), Some(IdOrIndex::Index(3)));
    assert_eq!(IdOrIndex::from_str("8242880"), Some(IdOrIndex::Id(8242880)));
    assert_eq!(IdOrIndex::from_str("+5"), Some(IdOrIndex::Id(5)));
    assert_eq!(IdOrIndex::from_str("[]"), None);
    assert_eq!(IdOrIndex::from_str("[x]"), None);
    assert_eq!(IdOrIndex::from_str("abc"), None);
    assert_eq!(IdOrIndex::from_str("4294967296"), None);
    assert_eq!(IdOrIndex::Index(3).to_string(), "[3]");
    assert_eq!(IdOrIndex::Id(8242880).to_string(), "8242880");
    assert!(IdOrIndex::Id(499).is_suspicious());
    assert!(!IdOrIndex::Id(500).is_suspicious());
    assert!(!IdOrIndex::Index(1).is_suspicious());
}

#[test]
fn loose_file_names_pad_the_index() {
    assert_eq!(wem_file_name(1, 8242880, 12), "[001]8242880.wem");
    assert_eq!(wem_file_name(3, 16088711, 999), "[003]16088711.wem");
    assert_eq!(wem_file_name(3, 16088711, 1000), "[0003]16088711.wem");
    assert_eq!(wem_file_name(12345, 0, 20000), "[12345]0.wem");
}

#[test]
fn index_keyed_replacement_wins() {
    let keys = vec![IdOrIndex::Id(8242880), IdOrIndex::Index(1), IdOrIndex::Index(3)];
    assert_eq!(choose_replacement(&keys, 1, 8242880), Some((1, ReplacedBy::Index)));
    assert_eq!(choose_replacement(&keys, 2, 8242880), Some((0, ReplacedBy::Id)));
    assert_eq!(choose_replacement(&keys, 3, 16088711), Some((2, ReplacedBy::Index)));
    assert_eq!(choose_replacement(&keys, 4, 5), None);
    let repeated = vec![IdOrIndex::Id(9), IdOrIndex::Id(9)];
    assert_eq!(choose_replacement(&repeated, 0, 9), Some((1, ReplacedBy::Id)));
}

#[test]
fn taken_output_paths_get_new_suffixes() {
    let once = with_new_suffix("out/bank.bnk");
    assert_eq!(once, "out/bank.bnk.new");
    assert_eq!(with_new_suffix(&once), "out/bank.bnk.new.new");
}
