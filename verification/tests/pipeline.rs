use freqcode::codec::{decompress, encode};
use freqcode::errors::CodecError;
use freqcode::freq::build_freq_table;
use freqcode::mapping::build_mapping;

#[test]
fn empty_input_boundaries() {
    let table = build_freq_table("");
    assert_eq!(table.len(), 0);
    assert_eq!(table.get('a'), None);
    let mapping = build_mapping(table).unwrap();
    assert_eq!(mapping.len(), 0);
    let encoded = encode("", &mapping).unwrap();
    assert!(encoded.is_empty());
    let reverse = mapping.reverse();
    assert_eq!(reverse.len(), 0);
    let decoded = decompress(&encoded, &reverse).unwrap();
    assert_eq!(decoded, "");
}

#[test]
fn aab_scenario() {
    let table = build_freq_table("aab");
    assert_eq!(table.len(), 2);
    assert_eq!(table.get('a'), Some(2));
    assert_eq!(table.get('b'), Some(1));
    assert_eq!(table.get('c'), None);
    let mapping = build_mapping(table).unwrap();
    assert_eq!(mapping.get('a'), Some(0));
    assert_eq!(mapping.get('b'), Some(1));
    let encoded = encode("aab", &mapping).unwrap();
    assert_eq!(encoded, vec![0u8, 0, 1]);
    let reverse = mapping.reverse();
    assert_eq!(reverse.get(0), Some('a'));
    assert_eq!(reverse.get(1), Some('b'));
    assert_eq!(reverse.get(2), None);
    let decoded = decompress(&encoded, &reverse).unwrap();
    assert_eq!(decoded, "aab");
}

#[test]
fn invalid_byte_fails_decode() {
    let table = build_freq_table("a");
    let mapping = build_mapping(table).unwrap();
    let reverse = mapping.reverse();
    assert_eq!(reverse.get(0), Some('a'));
    let result = decompress(&[0u8, 7], &reverse);
    assert_eq!(result, Err(CodecError::InvalidByte(7)));
}

#[test]
fn unmapped_symbol_fails_encode() {
    let table = build_freq_table("ab");
    let mapping = build_mapping(table).unwrap();
    let result = encode("abc", &mapping);
    assert_eq!(result, Err(CodecError::UnmappedSymbol));
}

#[test]
fn rank_ordering_by_frequency() {
    let table = build_freq_table("aaabbc");
    assert_eq!(table.get('a'), Some(3));
    assert_eq!(table.get('b'), Some(2));
    assert_eq!(table.get('c'), Some(1));
    let mapping = build_mapping(table).unwrap();
    assert_eq!(mapping.get('a'), Some(0));
    assert_eq!(mapping.get('b'), Some(1));
    assert_eq!(mapping.get('c'), Some(2));
    let encoded = encode("aaabbc", &mapping).unwrap();
    assert_eq!(encoded, vec![0u8, 0, 0, 1, 1, 2]);
}

#[test]
fn equal_counts_get_distinct_codes() {
    let table = build_freq_table("abab");
    let mapping = build_mapping(table).unwrap();
    let code_a = mapping.get('a').unwrap();
    let code_b = mapping.get('b').unwrap();
    assert_ne!(code_a, code_b);
    assert!(code_a < 2);
    assert!(code_b < 2);
}

#[test]
fn round_trip_mixed_text() {
    let text = "the quick brown fox jumps over the lazy dog — zwölf Boxkämpfer 🚀🚀🦀";
    let table = build_freq_table(text);
    let mapping = build_mapping(table).unwrap();
    let encoded = encode(text, &mapping).unwrap();
    assert_eq!(encoded.len(), text.chars().count());
    let reverse = mapping.reverse();
    let decoded = decompress(&encoded, &reverse).unwrap();
    assert_eq!(decoded, text);
}

#[test]
fn reverse_twice_restores_mapping() {
    let text = "banana split";
    let table = build_freq_table(text);
    let mapping = build_mapping(table).unwrap();
    let back = mapping.reverse().reverse();
    assert_eq!(back.len(), mapping.len());
    for c in text.chars() {
        assert_eq!(back.get(c), mapping.get(c));
    }
    assert_eq!(back.get('x'), None);
    assert_eq!(mapping.get('x'), None);
}

fn synthetic_alphabet(count: u32) -> String {
    (0..count).map(|i| char::from_u32(0x100 + i).unwrap()).collect()
}

#[test]
fn alphabet_overflow_boundary() {
    let text = synthetic_alphabet(255);
    let table = build_freq_table(&text);
    assert_eq!(table.len(), 255);
    let result = build_mapping(table);
    assert!(matches!(result, Err(CodecError::TooManyUniqueSymbols)));

    let text = synthetic_alphabet(254);
    let table = build_freq_table(&text);
    let mapping = build_mapping(table).unwrap();
    assert_eq!(mapping.len(), 254);
    let encoded = encode(&text, &mapping).unwrap();
    let decoded = decompress(&encoded, &mapping.reverse()).unwrap();
    assert_eq!(decoded, text);
}

#[test]
fn codes_are_contiguous_from_zero() {
    let text = "mississippi";
    let table = build_freq_table(text);
    let mapping = build_mapping(table).unwrap();
    let n = mapping.len() as u8;
    assert_eq!(n, 4);
    let reverse = mapping.reverse();
    for code in 0..n {
        assert!(reverse.get(code).is_some());
    }
    assert_eq!(reverse.get(n), None);
}
