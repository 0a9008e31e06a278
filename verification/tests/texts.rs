use binary2graph::binary::index_by_address;
use binary2graph::binary::Function;
use binary2graph::bytes::{read_word, read_word_pairs};
use binary2graph::dynamic::read_cstr;
use binary2graph::order::{order_by_rank, sorted_numbers, sorted_texts};
use binary2graph::text::{
    contains, ends_with, find, push_dec, push_dec_padded, push_hex, push_joined, push_pad_right,
    push_prefixed_hex, push_prefixed_hex_padded, same_text, starts_with, text_before, trim_end_nuls,
    Descending,
};

fn dec(n: u64) -> String {
    let mut out = String::new();
    push_dec(&mut out, n);
    out
}

#[test]
fn numbers_are_printed_in_decimal_and_hexadecimal() {
    assert_eq!(dec(0), "0");
    assert_eq!(dec(1234567890), "1234567890");
    assert_eq!(dec(u64::MAX), u64::MAX.to_string());
    let mut out = String::from("x");
    push_hex(&mut out, 0xdeadbeef);
    assert_eq!(out, "xdeadbeef");
    let mut out = String::new();
    push_prefixed_hex(&mut out, 0);
    assert_eq!(out, format!("{:#x}", 0));
    for n in [0u64, 1, 0xabcdef, u64::MAX] {
        let mut out = String::new();
        push_prefixed_hex_padded(&mut out, n, 10);
        assert_eq!(out, format!("{:#010x}", n));
    }
}

#[test]
fn padding_counts_characters() {
    let mut out = String::new();
    push_pad_right(&mut out, "añb", 5);
    assert_eq!(out, format!("{:<5}", "añb"));
    let mut out = String::new();
    push_pad_right(&mut out, "longer", 3);
    assert_eq!(out, "longer");
    let mut out = String::new();
    push_dec_padded(&mut out, 42, 6);
    assert_eq!(out, format!("{:>6}", 42));
    let mut out = String::new();
    push_dec_padded(&mut out, 1234567, 6);
    assert_eq!(out, "1234567");
}

#[test]
fn texts_are_joined_with_a_separator() {
    let mut out = String::new();
    push_joined(&mut out, &vec!["a".to_string(), "b".to_string(), "c".to_string()], "; ");
    assert_eq!(out, "a; b; c");
    let mut out = String::new();
    push_joined(&mut out, &Vec::new(), "; ");
    assert_eq!(out, "");
}

#[test]
fn texts_are_compared_and_searched() {
    assert!(starts_with("__asan_init", "__asan_"));
    assert!(!starts_with("asan", "asanx"));
    assert!(ends_with("__memcpy_chk", "_chk"));
    assert!(!ends_with("chk", "_chk"));
    assert!(same_text("", ""));
    assert!(!same_text("a", "ab"));
    assert!(contains("libasan.so", "asan"));
    assert!(!contains("libasan.so", "tsan"));
    assert_eq!(find("añb", "b"), "añb".find("b"));
    assert_eq!(find("abcabc", "ca"), Some(2));
    assert_eq!(find("abc", ""), Some(0));
    assert_eq!(find("abc", "abcd"), None);
    assert!(text_before("abc", "abd"));
    assert!(text_before("ab", "abc"));
    assert!(!text_before("b", "ab"));
    assert!(text_before("Z", "a"));
    assert!(text_before("\u{e000}", "\u{10000}"));
    assert_eq!(trim_end_nuls("ld.so\0\0"), "ld.so");
    assert_eq!(trim_end_nuls("\0a\0b"), "\0a\0b");
}

#[test]
fn sorting_is_stable_and_distinct() {
    assert_eq!(order_by_rank(&vec![3u64, 1, 3, 2]), vec![1, 3, 0, 2]);
    let down = vec![Descending(1), Descending(5), Descending(1), Descending(9)];
    assert_eq!(order_by_rank(&down), vec![3, 1, 0, 2]);
    assert_eq!(sorted_numbers(&vec![5, 1, 5, 0, 1]), vec![0, 1, 5]);
    let texts: Vec<String> = ["b", "", "a", "b", "B"].iter().map(|s| s.to_string()).collect();
    assert_eq!(sorted_texts(&texts), vec!["", "B", "a", "b"]);
}

#[test]
fn words_are_read_from_the_least_byte_up() {
    let data: Vec<u8> = (1..=20).collect();
    assert_eq!(read_word(&data, 1), u64::from_le_bytes([2, 3, 4, 5, 6, 7, 8, 9]));
    assert_eq!(read_word(&[0xff; 8], 0), u64::MAX);
    let pairs = read_word_pairs(&data);
    assert_eq!(pairs.len(), 1);
    assert_eq!(pairs[0].1, u64::from_le_bytes([9, 10, 11, 12, 13, 14, 15, 16]));
}

#[test]
fn strings_end_at_the_first_zero() {
    let data = b"abc\0def\0gh";
    assert_eq!(read_cstr(data, 0).as_deref(), Some("abc"));
    assert_eq!(read_cstr(data, 5).as_deref(), Some("ef"));
    assert_eq!(read_cstr(data, 3).as_deref(), Some(""));
    assert_eq!(read_cstr(data, 8), None);
    assert_eq!(read_cstr(data, 100), None);
    assert_eq!(read_cstr(b"a\xffb\0", 0).as_deref(), Some("a\u{fffd}b"));
}

#[test]
fn the_last_function_at_an_address_names_it() {
    let f = |name: &str, address: u64| Function {
        name: name.to_string(),
        address,
        size: 0,
        instructions: 0,
        calls_out: 0,
        exported: false,
    };
    let names = index_by_address(&[f("first", 7), f("other", 8), f("last", 7)]);
    assert_eq!(names.len(), 2);
    assert_eq!(names[&7], "last");
}
