use shop_cart::{ItemOption, ShopCart, ShopCartParseError, ToItemOption, ToItemOptionCategory};
use std::convert::{TryFrom, TryInto};

fn test_input(input: &str, expected: i64) {
    let shopcart = ShopCart::try_from(input).unwrap();

    assert_eq!(shopcart.get_cost(), expected)
}

#[test]
pub fn test_input_1() {
    test_input(
        r"10 2 3
              3 1
              5 2 8",
        9,
    )
}

#[test]
pub fn test_input_2() {
    test_input(
        r"5 1 1
              4
              5",
        -1,
    )
}

#[test]
fn single_category_at_and_below_its_price() {
    test_input("7 1\n7", 7);
    test_input("6 1\n7", -1);
}

#[test]
fn missing_category_line_is_reported() {
    let cart = ShopCart::try_from("10 2 3\n3 1");
    assert!(matches!(cart, Err(ShopCartParseError::MissingLine)));
}

#[test]
fn budget_alone_makes_a_cart_that_costs_nothing() {
    test_input("10", 0);
    test_input("0", 0);
}

#[test]
fn empty_text_has_no_header() {
    assert!(matches!(ShopCart::try_from(""), Err(ShopCartParseError::MissingLine)));
}

#[test]
fn blank_header_has_no_budget() {
    assert!(matches!(ShopCart::try_from("\n3 1"), Err(ShopCartParseError::MissingField)));
    assert!(matches!(ShopCart::try_from("   \t "), Err(ShopCartParseError::MissingField)));
}

#[test]
fn words_that_are_no_numbers_are_reported() {
    assert!(matches!(ShopCart::try_from("ten 1\n4"), Err(ShopCartParseError::NotAnInteger)));
    assert!(matches!(ShopCart::try_from("10 x\n4"), Err(ShopCartParseError::NotAnInteger)));
    assert!(matches!(ShopCart::try_from("10 1\n4.5"), Err(ShopCartParseError::NotAnInteger)));
    assert!(matches!(ShopCart::try_from("-1 1\n4"), Err(ShopCartParseError::NotAnInteger)));
    assert!(matches!(ShopCart::try_from("10 1\n1_0"), Err(ShopCartParseError::NotAnInteger)));
    assert!(matches!(ShopCart::try_from("10 1\n+"), Err(ShopCartParseError::NotAnInteger)));
}

#[test]
fn numbers_are_held_to_32_bits() {
    test_input("4294967295 1\n4294967295", 4294967295);
    assert!(matches!(
        ShopCart::try_from("4294967296 1\n4"),
        Err(ShopCartParseError::NotAnInteger)
    ));
    assert!(matches!(
        ShopCart::try_from("10 1\n99999999999999999999999"),
        Err(ShopCartParseError::NotAnInteger)
    ));
}

#[test]
fn plus_sign_and_leading_zeros_are_read() {
    test_input("+10 +1\n+007", 7);
    test_input("0000000000000000000010 1\n00000000000000000000009", 9);
}

#[test]
fn words_behind_the_counted_ones_are_not_read() {
    test_input("10 2 1\n3 1 junk 99\n5 x y", 8);
}

#[test]
fn a_short_line_gives_a_short_category() {
    test_input("10 3 1\n3 1\n5", 8);
}

#[test]
fn lines_behind_the_counted_ones_are_not_read() {
    test_input("10 1\n4\nnot a number", 4);
}

#[test]
fn missing_line_is_found_before_a_bad_count() {
    assert!(matches!(ShopCart::try_from("10 x"), Err(ShopCartParseError::MissingLine)));
    assert!(matches!(ShopCart::try_from("10 1 x\n4"), Err(ShopCartParseError::MissingLine)));
}

#[test]
fn first_faulty_category_decides_the_error() {
    assert!(matches!(
        ShopCart::try_from("10 1 1\nx"),
        Err(ShopCartParseError::NotAnInteger)
    ));
    assert!(matches!(
        ShopCart::try_from("10 1 1 1\n4\n4"),
        Err(ShopCartParseError::MissingLine)
    ));
}

#[test]
fn carriage_returns_and_wide_spaces_separate_words() {
    test_input("10 2 3\r\n3 1\r\n5 2 8\r\n", 9);
    test_input("10\u{00A0}2\u{3000}3\n3\u{2003}1\n5\u{000B}2\u{000C}8", 9);
}

#[test]
fn empty_category_leaves_nothing_to_select() {
    test_input("10 0 1\n\n5", -1);
    test_input("10 2 1\n\n5", -1);
}

#[test]
fn cost_does_not_fall_when_the_budget_rises() {
    let mut last: i64 = -1;
    let mut budget: u32 = 0;
    while budget <= 20 {
        let mut cart = ShopCart::new(budget);
        cart.add_option_category(vec![3u32, 1]);
        cart.add_option_category(vec![5u32, 2, 8]);
        let cost = cart.get_cost();
        assert!(cost >= last);
        assert!(cost == -1 || cost <= i64::from(budget));
        last = cost;
        budget += 1;
    }
    assert_eq!(last, 11);
}

#[test]
fn cost_is_the_same_on_every_call() {
    let cart = ShopCart::try_from("10 2 3\n3 1\n5 2 8").unwrap();
    let again = ShopCart::try_from("10 2 3\n3 1\n5 2 8").unwrap();
    assert_eq!(cart.get_cost(), 9);
    assert_eq!(cart.get_cost(), 9);
    assert_eq!(again.get_cost(), cart.get_cost());
}

#[test]
fn new_cart_has_no_category() {
    assert_eq!(ShopCart::new(0).get_cost(), 0);
    assert_eq!(ShopCart::new(5).get_cost(), 0);
}

#[test]
fn categories_come_from_vectors_arrays_and_slices() {
    let mut cart = ShopCart::new(10);
    cart.add_option_category(vec![3u32, 1]);
    cart.add_option_category([5u32, 2, 8]);
    assert_eq!(cart.get_cost(), 9);
    let prices = [4u32, 1];
    cart.add_option_category(&prices[..]);
    assert_eq!(cart.get_cost(), 10);
}

#[test]
fn totals_beyond_32_bits_are_over_budget() {
    let mut cart = ShopCart::new(u32::MAX);
    cart.add_option_category(vec![u32::MAX]);
    cart.add_option_category(vec![u32::MAX, 0]);
    assert_eq!(cart.get_cost(), 4294967295);
    cart.add_option_category(vec![1u32]);
    assert_eq!(cart.get_cost(), -1);
}

#[test]
fn cost_is_the_best_of_all_selections() {
    let mut cart = ShopCart::new(6);
    cart.add_option_category(vec![1u32, 9]);
    cart.add_option_category(vec![1u32, 5]);
    assert_eq!(cart.get_cost(), 6);

    let mut cart = ShopCart::new(11);
    cart.add_option_category(vec![3u32, 1]);
    cart.add_option_category(vec![5u32, 8]);
    assert_eq!(cart.get_cost(), 11);

    let mut cart = ShopCart::new(9);
    cart.add_option_category(vec![4u32, 3]);
    cart.add_option_category(vec![4u32, 3]);
    cart.add_option_category(vec![4u32, 3]);
    assert_eq!(cart.get_cost(), 9);
}

#[test]
fn categories_come_from_references_to_lists() {
    let prices = vec![3u32, 1];
    let more = [5u32, 2, 8];
    let mut cart = ShopCart::new(10);
    cart.add_option_category(&prices);
    cart.add_option_category(&more);
    assert_eq!(cart.get_cost(), 9);
    cart.add_option_category(&more[1..]);
    assert_eq!(cart.get_cost(), 10);
    assert_eq!(prices.len() + more.len(), 5);
}

#[test]
fn default_option_costs_nothing() {
    assert_eq!(ItemOption::default(), 0u32.to_item_option());
    let mut cart = ShopCart::new(0);
    cart.add_option_category(vec![0u32]);
    assert_eq!(cart.get_cost(), 0);
}

#[test]
fn options_compare_by_price() {
    assert!(1u32.to_item_option() < 2u32.to_item_option());
    assert_eq!(7u32.to_item_option(), 7u32.to_item_option());
    assert_ne!(7u32.to_item_option(), 8u32.to_item_option());
}

#[test]
fn category_keeps_its_options_in_order() {
    let category = vec![3u32, 1, 3].to_item_option_category();
    let options: &[ItemOption] = category.as_ref();
    assert_eq!(
        options,
        &[3u32.to_item_option(), 1u32.to_item_option(), 3u32.to_item_option()][..]
    );
    let none: Vec<u32> = Vec::new();
    assert!(none.to_item_option_category().as_ref().is_empty());
}

#[test]
fn text_is_converted_into_a_cart_both_ways() {
    let cart: Result<ShopCart, ShopCartParseError> = "7 1\n7".try_into();
    assert_eq!(cart.unwrap().get_cost(), 7);
    let none: Result<ShopCart, ShopCartParseError> = "".try_into();
    assert_eq!(none.unwrap_err(), ShopCartParseError::MissingLine);
}
