use urbit_http_api::codec::{
    index_dec_to_ud, index_is_ancestor, index_is_direct_parent, index_tail, mint_leaf_index,
    parent_index, split_index, unix_time_to_da, DA_SECOND, DA_UNIX_EPOCH,
};
use urbit_http_api::text::{decimal_string, parse_u64};

#[test]
fn ud_grouping_of_long_segments() {
    assert_eq!(
        index_dec_to_ud("/12345678901234/1/10987654321"),
        "/12.345.678.901.234/1/10.987.654.321"
    );
}

#[test]
fn ud_grouping_edges() {
    assert_eq!(index_dec_to_ud("/123"), "/123");
    assert_eq!(index_dec_to_ud("/1234"), "/1.234");
    assert_eq!(index_dec_to_ud("/123456"), "/123.456");
    assert_eq!(index_dec_to_ud(""), "");
    assert_eq!(index_dec_to_ud("//5"), "/5");
}

#[test]
fn unix_epoch_maps_to_da_epoch() {
    assert_eq!(unix_time_to_da(0), DA_UNIX_EPOCH);
    assert_eq!(unix_time_to_da(1000), DA_UNIX_EPOCH + DA_SECOND);
    assert_eq!(unix_time_to_da(1), DA_UNIX_EPOCH + DA_SECOND / 1000);
}

#[test]
fn largest_time_does_not_overflow() {
    let da = unix_time_to_da(u64::MAX);
    assert_eq!(da, DA_UNIX_EPOCH + (u64::MAX as u128 * DA_SECOND) / 1000);
}

#[test]
fn minting_twice_in_one_millisecond_gives_equal_single_segment_indices() {
    let a = mint_leaf_index(1_617_040_800_000);
    let b = mint_leaf_index(1_617_040_800_000);
    assert_eq!(a, b);
    assert_eq!(split_index(&a).len(), 2);
    assert_eq!(split_index(&b).len(), 2);
    assert_eq!(a, format!("/{}", unix_time_to_da(1_617_040_800_000)));
    assert!(!index_is_ancestor(&a, &b));
    assert!(!index_is_ancestor(&b, &a));
}

#[test]
fn ancestry_is_antisymmetric_and_direct_parents_are_ancestors() {
    assert!(index_is_ancestor("/1", "/1/2/3"));
    assert!(!index_is_ancestor("/1/2/3", "/1"));
    assert!(index_is_direct_parent("/1", "/1/2"));
    assert!(index_is_ancestor("/1", "/1/2"));
    assert!(!index_is_direct_parent("/1", "/1/2/3"));
    assert!(!index_is_ancestor("/1", "/1"));
    assert!(!index_is_ancestor("/1", "/10/2"));
    assert!(!index_is_ancestor("/2", "/1/2"));
}

#[test]
fn parents_and_tails() {
    assert_eq!(parent_index("/1/2/3"), Some("/1/2".to_string()));
    assert_eq!(parent_index("/1/2"), Some("/1".to_string()));
    assert_eq!(parent_index("/1"), None);
    assert_eq!(index_tail("/1/2/3"), "3");
    assert_eq!(index_tail("/17"), "17");
    assert_eq!(split_index("/1/2"), vec!["".to_string(), "1".to_string(), "2".to_string()]);
}

#[test]
fn decimal_numerals() {
    assert_eq!(decimal_string(0), "0");
    assert_eq!(decimal_string(1234567890), "1234567890");
    assert_eq!(decimal_string(u128::MAX), u128::MAX.to_string());
    assert_eq!(parse_u64("42"), Some(42));
    assert_eq!(parse_u64("+7"), Some(7));
    assert_eq!(parse_u64("18446744073709551615"), Some(u64::MAX));
    assert_eq!(parse_u64("18446744073709551616"), None);
    assert_eq!(parse_u64(""), None);
    assert_eq!(parse_u64("+"), None);
    assert_eq!(parse_u64("4a"), None);
}

#[test]
fn trimming_and_words_agree_with_std() {
    let samples = [
        "  a b  ",
        "\u{3000}x\u{85}",
        "\t\n\u{a0}mid\u{2028}dle\u{202f}",
        "",
        "   ",
        "one",
        "\u{200b}zero-width\u{200b}",
    ];
    for s in samples.iter() {
        assert_eq!(urbit_http_api::text::trim(s), s.trim());
        let std_words: Vec<String> = s.split_whitespace().map(|w| w.to_string()).collect();
        assert_eq!(urbit_http_api::text::split_words(s), std_words);
    }
}
