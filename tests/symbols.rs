use quote_writer::symbols::{
    create_symbol_id_map, parse_subscribe_list, parse_symbols_tsv, parse_u64_chars, split_lines,
    validate_symbols, SymbolMap, SymbolsError,
};

#[test]
fn test_symbol_map() {
    let mut map = SymbolMap::new();
    map.insert("BTCUSDT".to_string(), 1);
    map.insert("ETHUSDT".to_string(), 2);

    assert_eq!(map.get("BTCUSDT"), Some(&1));
    assert_eq!(map.get("ETHUSDT"), Some(&2));
    assert_eq!(map.get("XRPUSDT"), None);
}

#[test]
fn insert_reports_the_previous_id() {
    let mut map = SymbolMap::new();
    assert_eq!(map.insert("A".to_string(), 1), None);
    assert_eq!(map.insert("A".to_string(), 2), Some(1));
    assert_eq!(map.get("A"), Some(&2));
    assert!(map.contains_key("A"));
    assert!(!map.contains_key("a"));
}

#[test]
fn lines_are_split_at_newlines() {
    assert_eq!(split_lines("a\nb\n"), vec!["a", "b", ""]);
    assert_eq!(split_lines(""), vec![""]);
    assert_eq!(split_lines("x"), vec!["x"]);
}

#[test]
fn canonical_table_is_parsed() {
    let m = parse_symbols_tsv("1\tBTCUSDT\n2\tethusdt\r\n\n  \n").unwrap();
    assert_eq!(m.get("BTCUSDT"), Some(&1));
    assert_eq!(m.get("ETHUSDT"), Some(&2));
    assert_eq!(m.get("ethusdt"), None);
}

#[test]
fn canonical_table_errors_carry_the_line() {
    assert_eq!(parse_symbols_tsv("1\tA\n2 B\n").err(), Some(SymbolsError::InvalidFormat { line: 2 }));
    assert_eq!(parse_symbols_tsv("1\tA\tB\n").err(), Some(SymbolsError::InvalidFormat { line: 1 }));
    assert_eq!(parse_symbols_tsv("x\tA\n").err(), Some(SymbolsError::InvalidSymbolId { line: 1 }));
    assert_eq!(parse_symbols_tsv("\n1\tA\n2\ta\n").err(), Some(SymbolsError::DuplicateSymbol { line: 3 }));
}

#[test]
fn unsigned_ids_parse_like_std() {
    let c: Vec<char> = "+42".chars().collect();
    assert_eq!(parse_u64_chars(&c, 0, 3), Some(42));
    assert_eq!(parse_u64_chars(&c, 1, 3), Some(42));
    assert_eq!(parse_u64_chars(&c, 0, 1), None);
    assert_eq!(parse_u64_chars(&c, 0, 0), None);
    let big: Vec<char> = "18446744073709551615".chars().collect();
    assert_eq!(parse_u64_chars(&big, 0, big.len()), Some(u64::MAX));
    let over: Vec<char> = "18446744073709551616".chars().collect();
    assert_eq!(parse_u64_chars(&over, 0, over.len()), None);
    let neg: Vec<char> = "-1".chars().collect();
    assert_eq!(parse_u64_chars(&neg, 0, 2), None);
}

#[test]
fn subscription_list_is_trimmed_and_upper_cased() {
    let l = parse_subscribe_list(" btcusdt \n\nETHUSDT\n").unwrap();
    assert_eq!(l, vec!["BTCUSDT".to_string(), "ETHUSDT".to_string()]);
    assert_eq!(parse_subscribe_list("\n  \n"), Err(SymbolsError::EmptySubscription));
}

#[test]
fn unknown_subscription_is_rejected() {
    let table = parse_symbols_tsv("1\tBTCUSDT\n2\tETHUSDT\n").unwrap();
    let subs = parse_subscribe_list("BTCUSDT\nDOGEUSDT\n").unwrap();
    assert_eq!(validate_symbols(&subs, &table), Err(SymbolsError::UnknownSymbol { index: 1 }));
    assert_eq!(
        create_symbol_id_map(&subs, &table).err(),
        Some(SymbolsError::UnknownSymbol { index: 1 })
    );
}

#[test]
fn id_map_holds_exactly_the_subscription() {
    let table = parse_symbols_tsv("1\tBTCUSDT\n2\tETHUSDT\n3\tXRPUSDT\n").unwrap();
    let subs = vec!["XRPUSDT".to_string(), "BTCUSDT".to_string()];
    assert_eq!(validate_symbols(&subs, &table), Ok(()));
    let m = create_symbol_id_map(&subs, &table).unwrap();
    assert_eq!(m.get("XRPUSDT"), Some(&3));
    assert_eq!(m.get("BTCUSDT"), Some(&1));
    assert_eq!(m.get("ETHUSDT"), None);
}
