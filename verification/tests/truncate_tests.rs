use playground::truncate::{ExpensiveFmt, Render, TruncatedFormatter, TruncatedValue};

#[test]
fn write_within_budget_forwards_everything() {
    let mut out = String::new();
    let mut f = TruncatedFormatter { remaining: 10, inner: &mut out };
    assert!(f.write_str("abc").is_ok());
    assert_eq!(f.remaining, 7);
    assert_eq!(out, "abc");
}

#[test]
fn write_over_budget_is_cut() {
    let mut out = String::from("> ");
    let mut f = TruncatedFormatter { remaining: 3, inner: &mut out };
    assert!(f.write_str("hello").is_ok());
    assert_eq!(f.remaining, 0);
    assert!(f.write_str("world").is_ok());
    assert_eq!(f.remaining, 0);
    assert_eq!(out, "> hel");
}

#[test]
fn write_exactly_the_budget() {
    let mut out = String::new();
    let mut f = TruncatedFormatter { remaining: 5, inner: &mut out };
    assert!(f.write_str("hello").is_ok());
    assert_eq!(f.remaining, 0);
    assert!(f.write_str("!").is_ok());
    assert_eq!(out, "hello");
}

#[test]
fn cut_between_multibyte_characters() {
    let mut out = String::new();
    let mut f = TruncatedFormatter { remaining: 3, inner: &mut out };
    assert!(f.write_str("héllo").is_ok());
    assert_eq!(out, "hé");
}

#[test]
fn two_writes_forward_what_one_write_would() {
    let mut split = String::new();
    let mut f = TruncatedFormatter { remaining: 4, inner: &mut split };
    f.write_str("ab").unwrap();
    f.write_str("cdef").unwrap();
    let left_split = f.remaining;
    let mut whole = String::new();
    let mut g = TruncatedFormatter { remaining: 4, inner: &mut whole };
    g.write_str("abcdef").unwrap();
    let left_whole = g.remaining;
    assert_eq!(split, whole);
    assert_eq!(left_split, left_whole);
    assert_eq!(whole, "abcd");
}

#[test]
fn expensive_fmt_renders_ten_thousand_numbers() {
    let pieces = ExpensiveFmt {}.pieces();
    assert_eq!(pieces.len(), 10000);
    assert_eq!(pieces[0], "0");
    assert_eq!(pieces[42], "42");
    assert_eq!(pieces[9999], "9999");
    assert_eq!(pieces.concat().len(), 38890);
}

#[test]
fn truncated_value_keeps_ten_bytes() {
    let v = ExpensiveFmt {};
    let mut out = String::new();
    assert!(TruncatedValue(10, &v).fmt(&mut out).is_ok());
    assert_eq!(out, "0123456789");
}

#[test]
fn truncated_value_cuts_inside_a_piece() {
    let v = ExpensiveFmt {};
    let mut out = String::new();
    TruncatedValue(13, &v).fmt(&mut out).unwrap();
    assert_eq!(out, "0123456789101");
}

#[test]
fn truncated_value_with_zero_budget_is_empty() {
    let v = ExpensiveFmt {};
    let mut out = String::from("x");
    TruncatedValue(0, &v).fmt(&mut out).unwrap();
    assert_eq!(out, "x");
}

#[test]
fn truncated_value_with_large_budget_is_whole() {
    let v = ExpensiveFmt {};
    let mut out = String::new();
    TruncatedValue(1_000_000, &v).fmt(&mut out).unwrap();
    assert_eq!(out.len(), 38890);
    assert!(out.starts_with("0123456789101112"));
    assert!(out.ends_with("99989999"));
}

#[test]
fn write_pieces_forwards_a_prefix_of_the_concatenation() {
    let pieces: Vec<String> = vec!["ab".to_string(), "cé".to_string(), "fgh".to_string()];
    let mut out = String::new();
    let mut f = TruncatedFormatter { remaining: 5, inner: &mut out };
    assert!(f.write_pieces(&pieces).is_ok());
    assert_eq!(f.remaining, 0);
    assert_eq!(out, "abcé");
    let mut all = String::new();
    let mut g = TruncatedFormatter { remaining: 100, inner: &mut all };
    assert!(g.write_pieces(&pieces).is_ok());
    assert_eq!(g.remaining, 100 - 8);
    assert_eq!(all, "abcéfgh");
}

