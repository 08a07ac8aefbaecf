use protohackers::mean::{handle_instruction, mean_price, Action, Instruction};
use std::collections::BTreeMap;

fn message(kind: u8, a: i32, b: i32) -> [u8; 9] {
    let mut m = [0u8; 9];
    m[0] = kind;
    m[1..5].copy_from_slice(&a.to_be_bytes());
    m[5..9].copy_from_slice(&b.to_be_bytes());
    m
}

fn run(prices: &mut BTreeMap<i32, i32>, kind: u8, a: i32, b: i32) -> Action {
    let bytes = message(kind, a, b);
    handle_instruction(prices, &Instruction::from(&bytes))
}

fn reply(a: Action) -> Option<i32> {
    match a {
        Action::Reply(v) => Some(v),
        _ => None,
    }
}

#[test]
fn instruction_from_decodes_big_endian_fields() {
    let bytes = [0x49, 0x00, 0x00, 0x30, 0x39, 0x00, 0x00, 0x00, 0x65];
    let ins = Instruction::from(&bytes);
    assert_eq!(ins.kind, b'I');
    assert_eq!(ins.timestamp_first, 12345);
    assert_eq!(ins.price_last, 101);
}

#[test]
fn instruction_from_decodes_negative_values() {
    let bytes = [0x51, 0xff, 0xff, 0xff, 0xfe, 0x80, 0x00, 0x00, 0x00];
    let ins = Instruction::from(&bytes);
    assert_eq!(ins.kind, b'Q');
    assert_eq!(ins.timestamp_first, -2);
    assert_eq!(ins.price_last, i32::MIN);
}

#[test]
fn session_example_mean() {
    let mut prices = BTreeMap::new();
    assert!(matches!(run(&mut prices, b'I', 12345, 101), Action::Nothing));
    assert!(matches!(run(&mut prices, b'I', 12346, 102), Action::Nothing));
    assert!(matches!(run(&mut prices, b'I', 12347, 100), Action::Nothing));
    assert!(matches!(run(&mut prices, b'I', 40960, 5), Action::Nothing));
    assert_eq!(reply(run(&mut prices, b'Q', 12288, 16384)), Some(101));
}

#[test]
fn query_with_min_above_max_answers_zero() {
    let mut prices = BTreeMap::new();
    run(&mut prices, b'I', 10, 50);
    assert_eq!(reply(run(&mut prices, b'Q', 20, 0)), Some(0));
}

#[test]
fn query_over_no_prices_answers_zero() {
    let mut prices = BTreeMap::new();
    assert_eq!(reply(run(&mut prices, b'Q', i32::MIN, i32::MAX)), Some(0));
    run(&mut prices, b'I', 100, 7);
    assert_eq!(reply(run(&mut prices, b'Q', 0, 99)), Some(0));
}

#[test]
fn mean_rounds_toward_zero() {
    let mut prices = BTreeMap::new();
    run(&mut prices, b'I', 1, -3);
    run(&mut prices, b'I', 2, -4);
    assert_eq!(reply(run(&mut prices, b'Q', 1, 2)), Some(-3));
    run(&mut prices, b'I', 3, 10);
    assert_eq!(reply(run(&mut prices, b'Q', 1, 3)), Some(1));
}

#[test]
fn prices_summing_to_zero_answer_zero() {
    let mut prices = BTreeMap::new();
    run(&mut prices, b'I', 1, 5);
    run(&mut prices, b'I', 2, -5);
    assert_eq!(reply(run(&mut prices, b'Q', 1, 2)), Some(0));
}

#[test]
fn range_bounds_are_inclusive() {
    let mut prices = BTreeMap::new();
    run(&mut prices, b'I', 10, 4);
    run(&mut prices, b'I', 20, 8);
    run(&mut prices, b'I', 30, 100);
    assert_eq!(reply(run(&mut prices, b'Q', 10, 20)), Some(6));
}

#[test]
fn insert_at_same_timestamp_replaces_price() {
    let mut prices = BTreeMap::new();
    run(&mut prices, b'I', 5, 10);
    run(&mut prices, b'I', 5, 30);
    assert_eq!(prices.len(), 1);
    assert_eq!(reply(run(&mut prices, b'Q', 0, 10)), Some(30));
}

#[test]
fn extreme_prices_do_not_overflow() {
    let mut prices = BTreeMap::new();
    run(&mut prices, b'I', i32::MIN, i32::MAX);
    run(&mut prices, b'I', i32::MAX, i32::MAX);
    run(&mut prices, b'I', 0, i32::MAX);
    assert_eq!(reply(run(&mut prices, b'Q', i32::MIN, i32::MAX)), Some(i32::MAX));
    let mut low = BTreeMap::new();
    run(&mut low, b'I', 1, i32::MIN);
    run(&mut low, b'I', 2, i32::MIN);
    assert_eq!(reply(run(&mut low, b'Q', 1, 2)), Some(i32::MIN));
}

#[test]
fn unknown_kind_closes_without_change() {
    let mut prices = BTreeMap::new();
    run(&mut prices, b'I', 1, 1);
    assert!(matches!(run(&mut prices, b'X', 1, 1), Action::Close));
    assert_eq!(prices.len(), 1);
}

#[test]
fn query_does_not_change_prices() {
    let mut prices = BTreeMap::new();
    run(&mut prices, b'I', 1, 1);
    run(&mut prices, b'Q', 0, 5);
    assert_eq!(prices.len(), 1);
    assert_eq!(prices.get(&1), Some(&1));
}

#[test]
fn insert_outside_range_keeps_mean() {
    let mut prices = BTreeMap::new();
    run(&mut prices, b'I', 10, 20);
    run(&mut prices, b'I', 11, 40);
    let before = mean_price(&prices, 10, 11);
    run(&mut prices, b'I', 9, 1000);
    run(&mut prices, b'I', 12, -1000);
    assert_eq!(mean_price(&prices, 10, 11), before);
    assert_eq!(before, 30);
}

#[test]
fn lone_price_is_its_own_mean() {
    let mut prices = BTreeMap::new();
    run(&mut prices, b'I', 77, -123);
    assert_eq!(mean_price(&prices, 0, 100), -123);
    assert_eq!(mean_price(&prices, 78, 100), 0);
}

#[test]
fn mean_lies_within_prices() {
    let mut prices = BTreeMap::new();
    run(&mut prices, b'I', 1, 3);
    run(&mut prices, b'I', 2, 9);
    run(&mut prices, b'I', 3, 4);
    let m = mean_price(&prices, 1, 3);
    assert_eq!(m, 5);
    assert!(3 <= m && m <= 9);
}
