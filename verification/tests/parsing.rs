/// What each program reads from the same arguments, in a fixed order:
/// logged_chunks, cheapest_chunks, rank_radix, indexed_radix, sorted_chunks,
/// range_chunks. `None` is an error.
fn read_all(args: &[&str]) -> Vec<Option<Vec<i32>>> {
    let owned: Vec<String> = args.iter().map(|s| s.to_string()).collect();
    let mut with_name: Vec<String> = vec!["push_swap".to_string()];
    with_name.extend(owned.iter().cloned());
    vec![
        lib::logged_chunks::parse_args(owned.clone()).ok(),
        lib::cheapest_chunks::parse_args(&owned),
        lib::rank_radix::read_values(&owned),
        lib::indexed_radix::parse_args(&owned),
        lib::sorted_chunks::parse_args(&owned),
        lib::range_chunks::parse_args(with_name).ok(),
    ]
}

fn all_give(args: &[&str], expected: Option<Vec<i32>>) {
    for (k, got) in read_all(args).into_iter().enumerate() {
        assert_eq!(got, expected, "reader {} on {:?}", k, args);
    }
}

#[test]
fn separate_arguments_and_one_string_agree() {
    all_give(&["3", "1", "2"], Some(vec![3, 1, 2]));
    all_give(&["3 1 2"], Some(vec![3, 1, 2]));
    all_give(&["3 1", "2"], Some(vec![3, 1, 2]));
    all_give(&["  4 5  "], Some(vec![4, 5]));
}

#[test]
fn no_arguments_read_nothing() {
    all_give(&[], Some(vec![]));
}

#[test]
fn empty_argument_is_an_error() {
    all_give(&[""], None);
    all_give(&["1", ""], None);
}

#[test]
fn argument_of_white_space_only() {
    let got = read_all(&["1", "   "]);
    // logged_chunks, rank_radix and indexed_radix refuse it; the others skip it.
    assert_eq!(got[0], None);
    assert_eq!(got[1], Some(vec![1]));
    assert_eq!(got[2], None);
    assert_eq!(got[3], None);
    assert_eq!(got[4], Some(vec![1]));
    assert_eq!(got[5], Some(vec![1]));
}

#[test]
fn non_numbers_are_errors() {
    all_give(&["1", "a"], None);
    all_give(&["12abc"], None);
    all_give(&["+"], None);
    all_give(&["-"], None);
    all_give(&["--1"], None);
    all_give(&["1.5"], None);
    all_give(&["\u{0661}"], None);
}

#[test]
fn duplicates_are_errors() {
    all_give(&["1 1"], None);
    all_give(&["5", "3", "+5"], None);
    all_give(&["0", "-0"], None);
}

#[test]
fn limits_of_i32() {
    all_give(&["2147483647", "-2147483648"], Some(vec![i32::MAX, i32::MIN]));
    all_give(&["2147483648"], None);
    all_give(&["-2147483649"], None);
    all_give(&["99999999999999999999"], None);
}

#[test]
fn signs_are_read() {
    all_give(&["+5", "-7", "0"], Some(vec![5, -7, 0]));
}

#[test]
fn ascii_white_space_separates() {
    all_give(&["1\t2\n3\r4"], Some(vec![1, 2, 3, 4]));
    all_give(&["1\u{0B}2\u{0C}3"], Some(vec![1, 2, 3]));
}

#[test]
fn unicode_white_space_separates_for_the_standard_split() {
    let got = read_all(&["1\u{3000}2"]);
    // logged_chunks splits at ASCII white space only, so the word is not a number.
    assert_eq!(got[0], None);
    for k in 1..6 {
        assert_eq!(got[k], Some(vec![1, 2]), "reader {}", k);
    }
}

#[test]
fn leading_zeros_are_read() {
    all_give(&["00000000001", "2"], Some(vec![1, 2]));
    all_give(&["00000000042"], Some(vec![42]));
    all_give(&["-000000000000002147483648"], Some(vec![i32::MIN]));
    let args = vec!["push_swap".to_string(), "00000000042".to_string()];
    assert_eq!(lib::range_chunks::parse_args(args), Ok(vec![42]));
}

#[test]
fn program_name_is_left_out_by_range_chunks() {
    let args = vec!["push_swap".to_string(), "7".to_string()];
    assert_eq!(lib::range_chunks::parse_args(args), Ok(vec![7]));
    assert_eq!(lib::range_chunks::parse_args(Vec::new()), Ok(vec![]));
    assert_eq!(lib::range_chunks::parse_args(vec!["x".to_string(), "".to_string()]), Err(()));
}

#[test]
fn single_tokens() {
    assert_eq!(lib::logged_chunks::parse_i32("-2147483648"), Some(i32::MIN));
    assert_eq!(lib::logged_chunks::parse_i32("+0042"), Some(42));
    assert_eq!(lib::logged_chunks::parse_i32(""), None);
    assert_eq!(lib::logged_chunks::parse_i32("4 2"), None);
    assert_eq!(lib::logged_chunks::parse_i32("2147483648"), None);
    assert_eq!(lib::sorted_chunks::parse_i32("2147483647"), Some(i32::MAX));
    assert_eq!(lib::sorted_chunks::parse_i32("-"), None);
    assert_eq!(lib::sorted_chunks::parse_i32("-17"), Some(-17));
    assert_eq!(lib::sorted_chunks::parse_i32("1x"), None);
}

#[test]
fn valid_tokens() {
    assert!(lib::rank_radix::valid_token("123"));
    assert!(lib::rank_radix::valid_token("-0"));
    assert!(lib::rank_radix::valid_token("+99999999999"));
    assert!(!lib::rank_radix::valid_token(""));
    assert!(!lib::rank_radix::valid_token("+"));
    assert!(!lib::rank_radix::valid_token("1-"));
    assert!(!lib::rank_radix::valid_token("\u{0661}"));
}

#[test]
fn separators_of_logged_chunks() {
    for c in [b' ', b'\t', b'\n', b'\r', 0x0B, 0x0C] {
        assert!(lib::logged_chunks::is_ws(c));
    }
    for c in [b'0', b'a', b'-', 0x00, 0x85, 0xA0] {
        assert!(!lib::logged_chunks::is_ws(c));
    }
}
