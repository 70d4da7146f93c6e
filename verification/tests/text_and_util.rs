use core::cmp::Ordering;
use yongkey::text::{lines_of, parse_usize};
use yongkey::util::{
    cmp_by_len_default, combination_size, groupBy_run, hashmap_flip_flatten,
    permutation_size, process_permutation_separately, sort_strings, union_hashmap, unions_hashmap,
};

fn s(x: &str) -> String {
    x.to_string()
}

fn cs(x: &str) -> Vec<char> {
    x.chars().collect()
}

#[test]
fn lines_strip_carriage_returns_before_line_feeds_only() {
    assert_eq!(lines_of("a\r\nb"), vec![s("a"), s("b")]);
    assert_eq!(lines_of("x\r"), vec![s("x\r")]);
    assert_eq!(lines_of(""), Vec::<String>::new());
    assert_eq!(lines_of("\n\nz"), vec![s(""), s(""), s("z")]);
}

#[test]
fn parse_usize_follows_from_str_radix() {
    assert_eq!(parse_usize(&cs("42")), Some(42));
    assert_eq!(parse_usize(&cs("+7")), Some(7));
    assert_eq!(parse_usize(&cs("007")), Some(7));
    assert_eq!(parse_usize(&cs("")), None);
    assert_eq!(parse_usize(&cs("+")), None);
    assert_eq!(parse_usize(&cs("-1")), None);
    assert_eq!(parse_usize(&cs("1a")), None);
    assert_eq!(parse_usize(&cs(&usize::MAX.to_string())), Some(usize::MAX));
    assert_eq!(parse_usize(&cs("99999999999999999999999")), None);
}

#[test]
fn flip_flatten_later_key_wins() {
    let h = vec![(s("k1"), vec![s("a"), s("b")]), (s("k2"), vec![s("b"), s("c")])];
    assert_eq!(
        hashmap_flip_flatten(h),
        vec![(s("a"), s("k1")), (s("b"), s("k2")), (s("c"), s("k2"))]
    );
}

#[test]
fn union_extends_existing_keys() {
    let mut base = vec![(s("a"), vec![s("1")])];
    union_hashmap(&mut base, vec![(s("b"), vec![s("2")]), (s("a"), vec![s("3")])]);
    assert_eq!(base, vec![(s("a"), vec![s("1"), s("3")]), (s("b"), vec![s("2")])]);
}

#[test]
fn unions_merge_in_turn() {
    let mut base: Vec<(String, Vec<String>)> = Vec::new();
    let hs = vec![
        vec![(s("a"), vec![s("x")])],
        vec![(s("a"), vec![s("y")]), (s("b"), vec![s("z")])],
    ];
    unions_hashmap(&mut base, hs);
    assert_eq!(base, vec![(s("a"), vec![s("x"), s("y")]), (s("b"), vec![s("z")])]);
}

#[test]
fn group_by_run_keeps_value_order() {
    let i = vec![(s("a"), s("1")), (s("b"), s("2")), (s("a"), s("3"))];
    assert_eq!(groupBy_run(&i), vec![(s("a"), vec![s("1"), s("3")]), (s("b"), vec![s("2")])]);
}

#[test]
fn combination_sizes() {
    assert_eq!(combination_size(5, 2), 10);
    assert_eq!(combination_size(6, 3), 20);
    assert_eq!(combination_size(1, 1), 1);
    assert_eq!(combination_size(7, 1), 7);
    assert_eq!(combination_size(3, 5), 0);
}

#[test]
fn permutation_processing_yields_nothing() {
    assert!(process_permutation_separately(vec!['a', 'b']).is_empty());
}

#[test]
fn strings_sort_lexicographically() {
    assert_eq!(sort_strings(&vec![s("b"), s("a"), s("ab")]), vec![s("a"), s("ab"), s("b")]);
}

#[test]
fn spells_order_by_length_then_text() {
    assert_eq!(cmp_by_len_default(&s("ab"), &s("b")), Ordering::Greater);
    assert_eq!(cmp_by_len_default(&s("a"), &s("b")), Ordering::Less);
    assert_eq!(cmp_by_len_default(&s("ba"), &s("ab")), Ordering::Greater);
    assert_eq!(cmp_by_len_default(&s("xy"), &s("xy")), Ordering::Equal);
}

fn permutation_size_big(n: usize, k: usize) -> num_bigint::BigUint {
    num_bigint::BigUint::new(permutation_size(n, k))
}

#[test]
fn permsize() {
    let n = 8;
    let k = 2;
    let j = 3;
    assert_eq!(
        num_bigint::BigUint::from(combination_size(n, j + k))
            * permutation_size_big(j, j)
            * permutation_size_big(k, k)
            * num_bigint::BigUint::from(combination_size(j + k, j)),
        permutation_size_big(n, k + j)
    );
}

#[test]
fn permutation_sizes() {
    assert_eq!(permutation_size(5, 2), vec![20]);
    assert_eq!(permutation_size(3, 3), vec![6]);
    assert_eq!(permutation_size(4, 0), vec![1]);
    assert_eq!(permutation_size(2, 3), Vec::<u32>::new());
    // 26! = 403291461126605635584000000
    assert_eq!(
        num_bigint::BigUint::new(permutation_size(26, 26)).to_string(),
        "403291461126605635584000000"
    );
}
