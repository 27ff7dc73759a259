use shop_cart::{ShopCart, ShopCartParseError};
use std::convert::TryFrom;

/// The best total within budget over the categories from `from` on, given
/// what the options taken before them cost.
fn best_from(categories: &[Vec<u32>], from: usize, spent: u64, budget: u32) -> i64 {
    if from == categories.len() {
        return if spent <= u64::from(budget) { spent as i64 } else { -1 };
    }
    let mut best: i64 = -1;
    for price in &categories[from] {
        let cost = best_from(categories, from + 1, spent + u64::from(*price), budget);
        if cost > best {
            best = cost;
        }
    }
    best
}

/// The largest total of one option per category within budget.
fn best_cost(categories: &[Vec<u32>], budget: u32) -> i64 {
    best_from(categories, 0, 0, budget)
}

/// The same reading with the iterators of std.
fn read_with_std(input: &str) -> Result<i64, ShopCartParseError> {
    let mut lines = input.lines().map(|line| {
        line.split_whitespace()
            .map(|word| word.parse::<u32>().map_err(|_| ShopCartParseError::NotAnInteger))
    });
    let mut header = lines.next().ok_or(ShopCartParseError::MissingLine)?;
    let budget = header.next().ok_or(ShopCartParseError::MissingField)??;
    let mut categories: Vec<Vec<u32>> = Vec::new();
    for count in header {
        let line = lines.next().ok_or(ShopCartParseError::MissingLine)?;
        let prices: Result<Vec<u32>, ShopCartParseError> = line.take(count? as usize).collect();
        categories.push(prices?);
    }
    Ok(best_cost(&categories, budget))
}

fn read(input: &str) -> Result<i64, ShopCartParseError> {
    ShopCart::try_from(input).map(|cart| cart.get_cost())
}

struct Dice(u64);

impl Dice {
    fn roll(&mut self, sides: usize) -> usize {
        self.0 = self.0.wrapping_mul(6364136223846793005).wrapping_add(1442695040888963407);
        ((self.0 >> 33) as usize) % sides
    }
}

#[test]
fn reading_agrees_with_std_on_handmade_texts() {
    let texts = [
        "10 2 3\n3 1\n5 2 8",
        "10 2 3\n3 1\n5 2 8\n",
        "10 2 3\r\n3 1\r\n5 2 8",
        "10 2 3\n3 1",
        "10 2 3\n3 1\n5 2",
        "10 2 3\n3 1\n5 2 8 13 x",
        "10 2 3\n3 x\n5 2 8",
        "10 2 x\n3 1\n5 2 8",
        "10 2 x\n3 1",
        "x 2 3\n3 1\n5 2 8",
        "",
        "\n",
        " \n1",
        "5",
        "5 0\n",
        "5 0",
        "5 1\n\n",
        "0 1 1\n0\n0",
        "+5 +1\n+5",
        "5 1\n-5",
        "4294967295 2\n4294967295 0",
        "4294967296",
        "9 3 3 3\n1 2 3\n1 2 3\n1 2 3",
        "9 3 3 3\n3 2 1\n3 2 1\n3 2 1",
        "6 2 2\n1 9\n1 5",
        "11 2 2\n3 1\n5 8",
    ];
    for text in texts {
        assert_eq!(read(text), read_with_std(text));
    }
}

#[test]
fn reading_agrees_with_std_on_shuffled_texts() {
    let pieces = [
        "0", "1", "2", "3", "5", "8", "13", "+4", "x", "-1", "4294967295", "4294967296", " ",
        "  ", "\t", "\n", "\n", "\r\n", "\u{a0}", "1 ", "2 ", "3 ", "\n1 ", "\n2 2 ",
    ];
    let mut dice = Dice(2024);
    let mut round: u32 = 0;
    while round < 4000 {
        let mut text = String::new();
        let length = dice.roll(14);
        let mut i: usize = 0;
        while i < length {
            text.push_str(pieces[dice.roll(pieces.len())]);
            i += 1;
        }
        assert_eq!(read(&text), read_with_std(&text));
        round += 1;
    }
}

#[test]
fn cost_is_the_best_on_shuffled_carts() {
    let mut dice = Dice(7);
    let mut round: u32 = 0;
    while round < 2000 {
        let budget = dice.roll(30) as u32;
        let mut cart = ShopCart::new(budget);
        let mut categories: Vec<Vec<u32>> = Vec::new();
        let count = dice.roll(5);
        let mut i: usize = 0;
        while i < count {
            let mut category: Vec<u32> = Vec::new();
            let size = dice.roll(4);
            let mut j: usize = 0;
            while j < size {
                category.push(dice.roll(12) as u32);
                j += 1;
            }
            cart.add_option_category(category.clone());
            categories.push(category);
            i += 1;
        }
        assert_eq!(cart.get_cost(), best_cost(&categories, budget));
        round += 1;
    }
}
