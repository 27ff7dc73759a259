//! Carts of option categories under a budget.
//!
//! A cart holds categories of priced options and a budget. Its cost is the
//! largest total of one option per category that the budget covers: see
//! [`max_cost`]. A cart is built category by category, or read from text:
//! see [`parsed`].

use crate::text::{characters, contents, decimal, lines, words};
use crate::text::{parse_decimal, split_lines, split_words};
use crate::utils::{combinations, is_selection, lengths, CombinationsGetter};
use crate::utils::{lemma_combination_is_selection, lemma_combinations_of_nothing};
use crate::utils::{lemma_every_selection_visited, lemma_no_combination_of_empty};
use std::convert::TryFrom;
use vstd::prelude::*;
use vstd::std_specs::convert::TryFromSpecImpl;

verus! {

/// One priced choice. Its view is its price.
#[derive(Debug, Clone, Copy, PartialEq, Eq, Structural, PartialOrd, Ord)]
pub struct ItemOption {
    price: u32,
}

impl View for ItemOption {
    type V = u32;

    closed spec fn view(&self) -> u32 {
        self.price
    }
}

impl Default for ItemOption {
    fn default() -> (option: Self)
        ensures
            option@ == 0,
    {
        Self { price: 0 }
    }
}

/// The options of which a selection takes exactly one. Its view is the list
/// of their prices.
#[derive(Debug)]
pub struct ItemOptionCategory {
    item_options: Vec<ItemOption>,
}

impl ItemOptionCategory {
    /// The options, in the order in which they were given.
    pub closed spec fn options(&self) -> Seq<ItemOption> {
        self.item_options@
    }
}

impl View for ItemOptionCategory {
    type V = Seq<u32>;

    open spec fn view(&self) -> Seq<u32> {
        Seq::new(self.options().len(), |i: int| self.options()[i]@)
    }
}

impl AsRef<[ItemOption]> for ItemOptionCategory {
    fn as_ref(&self) -> (options: &[ItemOption])
        ensures
            options@ == self.options(),
    {
        self.item_options.as_slice()
    }
}

/// A list of values that stand for prices, to be made a category.
pub trait ToItemOptionCategory<T> {
    /// The prices of the category that the list makes.
    spec fn prices(&self) -> Seq<u32>;

    fn to_item_option_category(&self) -> (category: ItemOptionCategory)
        ensures
            category@ == self.prices(),
    ;
}

/// A value that stands for a price, to be made an option.
pub trait ToItemOption: Copy {
    /// The price of the option that the value makes.
    spec fn price(self) -> u32;

    fn to_item_option(self) -> (option: ItemOption)
        ensures
            option@ == self.price(),
    ;
}

impl ToItemOption for u32 {
    open spec fn price(self) -> u32 {
        self
    }

    fn to_item_option(self) -> (option: ItemOption) {
        ItemOption { price: self }
    }
}

/// The prices that a list of values stands for.
pub open spec fn offered<T: ToItemOption>(items: Seq<T>) -> Seq<u32> {
    Seq::new(items.len(), |i: int| items[i].price())
}

/// The category of the options that `items` make, in their order.
fn category_of<T: ToItemOption>(items: &[T]) -> (category: ItemOptionCategory)
    ensures
        category@ == offered(items@),
{
    let mut item_options: Vec<ItemOption> = Vec::new();
    let mut i: usize = 0;
    while i < items.len()
        invariant
            i <= items@.len(),
            item_options@.len() == i,
            forall|j: int| 0 <= j < i ==> item_options@[j]@ == items@[j].price(),
        decreases items@.len() - i,
    {
        item_options.push(items[i].to_item_option());
        i += 1;
    }
    let category = ItemOptionCategory { item_options };
    category
}

impl<T: ToItemOption> ToItemOptionCategory<T> for Vec<T> {
    open spec fn prices(&self) -> Seq<u32> {
        offered(self@)
    }

    fn to_item_option_category(&self) -> (category: ItemOptionCategory) {
        category_of(self.as_slice())
    }
}

impl<T: ToItemOption> ToItemOptionCategory<T> for [T] {
    open spec fn prices(&self) -> Seq<u32> {
        offered(self@)
    }

    fn to_item_option_category(&self) -> (category: ItemOptionCategory) {
        category_of(self)
    }
}

impl<T: ToItemOption, const N: usize> ToItemOptionCategory<T> for [T; N] {
    open spec fn prices(&self) -> Seq<u32> {
        offered(self@)
    }

    fn to_item_option_category(&self) -> (category: ItemOptionCategory) {
        category_of(self.as_slice())
    }
}

/// A reference to a list makes the category that the list makes.
impl<'a, T, C: ToItemOptionCategory<T> + ?Sized> ToItemOptionCategory<T> for &'a C {
    open spec fn prices(&self) -> Seq<u32> {
        (**self).prices()
    }

    fn to_item_option_category(&self) -> (category: ItemOptionCategory) {
        (**self).to_item_option_category()
    }
}

/// The sum of a list of prices.
pub open spec fn sum(prices: Seq<u32>) -> int
    decreases prices.len(),
{
    if prices.len() == 0 {
        0
    } else {
        sum(prices.drop_last()) + prices.last()
    }
}

/// The prices of the options that `cursors` names, category by category.
pub open spec fn picked_prices(categories: Seq<Seq<u32>>, cursors: Seq<int>) -> Seq<u32> {
    Seq::new(categories.len(), |i: int| categories[i][cursors[i]])
}

/// What a selection costs: the sum of the prices of its options.
pub open spec fn selection_cost(categories: Seq<Seq<u32>>, cursors: Seq<int>) -> int {
    sum(picked_prices(categories, cursors))
}

/// The costs of all selections, in the order in which a getter yields them.
pub open spec fn costs(categories: Seq<Seq<u32>>) -> Seq<int> {
    let selections = combinations(lengths(categories));
    Seq::new(selections.len(), |k: int| selection_cost(categories, selections[k]))
}

/// The largest of `costs` that does not exceed `budget`; `-1` when there is
/// none.
pub open spec fn best_within(costs: Seq<int>, budget: int) -> int
    decreases costs.len(),
{
    if costs.len() == 0 {
        -1
    } else {
        let before = best_within(costs.drop_last(), budget);
        if before < costs.last() <= budget {
            costs.last()
        } else {
            before
        }
    }
}

/// The cost of a cart: the largest cost of a selection within budget, `-1`
/// when none is within budget.
pub open spec fn max_cost(categories: Seq<Seq<u32>>, budget: int) -> int {
    best_within(costs(categories), budget)
}

/// The prices of the options that a combination refers to.
spec fn prices_of(picked: Seq<&ItemOption>) -> Seq<u32> {
    Seq::new(picked.len(), |i: int| picked[i]@)
}

proof fn lemma_sum_bounds(prices: Seq<u32>)
    ensures
        0 <= sum(prices) <= prices.len() * u32::MAX,
    decreases prices.len(),
{
    if prices.len() > 0 {
        lemma_sum_bounds(prices.drop_last());
    }
}

/// What `best_within` returns is `-1` or one of the costs within budget, and
/// no cost within budget is larger.
proof fn lemma_best_within(costs: Seq<int>, budget: int)
    ensures
        best_within(costs, budget) == -1 || exists|k: int|
            0 <= k < costs.len() && costs[k] == best_within(costs, budget),
        -1 <= best_within(costs, budget),
        best_within(costs, budget) <= budget || best_within(costs, budget) == -1,
        forall|k: int|
            0 <= k < costs.len() && costs[k] <= budget ==> costs[k] <= best_within(costs, budget),
    decreases costs.len(),
{
    if costs.len() > 0 {
        let front = costs.drop_last();
        lemma_best_within(front, budget);
        let best = best_within(costs, budget);
        if best != -1 && best != costs.last() {
            let k = choose|k: int| 0 <= k < front.len() && front[k] == best;
            assert(costs[k] == best);
        }
        assert forall|k: int| 0 <= k < costs.len() && costs[k] <= budget implies costs[k]
            <= best by {
            if k < front.len() {
                assert(front[k] == costs[k]);
            }
        }
    }
}

/// A larger budget never gives a smaller best.
proof fn lemma_best_within_monotone(costs: Seq<int>, low: int, high: int)
    requires
        low <= high,
    ensures
        best_within(costs, low) <= best_within(costs, high),
    decreases costs.len(),
{
    if costs.len() > 0 {
        lemma_best_within_monotone(costs.drop_last(), low, high);
        lemma_best_within(costs.drop_last(), low);
    }
}

/// The cost of a cart is the largest cost of a selection, one option of
/// every category, that the budget covers: it is `-1`, or it is the cost of
/// such a selection; and no such selection costs more.
pub proof fn lemma_max_cost_is_best(categories: Seq<Seq<u32>>, budget: int)
    ensures
        max_cost(categories, budget) == -1 || (0 <= max_cost(categories, budget) <= budget
            && exists|cursors: Seq<int>|
            is_selection(lengths(categories), cursors) && selection_cost(categories, cursors)
                == max_cost(categories, budget)),
        forall|cursors: Seq<int>|
            is_selection(lengths(categories), cursors) && selection_cost(categories, cursors)
                <= budget ==> selection_cost(categories, cursors) <= max_cost(categories, budget),
{
    let lens = lengths(categories);
    let all = costs(categories);
    let best = max_cost(categories, budget);
    lemma_best_within(all, budget);
    if best != -1 {
        let k = choose|k: int| 0 <= k < all.len() && all[k] == best;
        lemma_combination_is_selection(lens, k);
        lemma_sum_bounds(picked_prices(categories, combinations(lens)[k]));
    }
    assert forall|cursors: Seq<int>|
        is_selection(lens, cursors) && selection_cost(categories, cursors)
            <= budget implies selection_cost(categories, cursors) <= best by {
        lemma_every_selection_visited(lens, cursors);
        let selections = combinations(lens);
        let k = choose|k: int| 0 <= k < selections.len() && selections[k] == cursors;
        assert(all[k] == selection_cost(categories, cursors));
    }
}

/// Where a category has no option there is no selection, and the cost is
/// `-1` under every budget.
pub proof fn lemma_max_cost_of_empty_category(categories: Seq<Seq<u32>>, budget: int, at: int)
    requires
        0 <= at < categories.len(),
        categories[at].len() == 0,
    ensures
        max_cost(categories, budget) == -1,
{
    lemma_no_combination_of_empty(lengths(categories), at);
}

/// Over the same categories, a larger budget never gives a smaller cost.
pub proof fn lemma_max_cost_monotone(categories: Seq<Seq<u32>>, low: int, high: int)
    requires
        low <= high,
    ensures
        max_cost(categories, low) <= max_cost(categories, high),
{
    lemma_best_within_monotone(costs(categories), low, high);
}

/// Without categories there is one selection, the empty one, which costs
/// nothing: under any budget that is not negative, the cost is 0.
pub proof fn lemma_max_cost_of_no_categories(budget: int)
    requires
        budget >= 0,
    ensures
        costs(Seq::<Seq<u32>>::empty()) == seq![0int],
        max_cost(Seq::<Seq<u32>>::empty(), budget) == 0,
{
    let none = Seq::<Seq<u32>>::empty();
    lemma_combinations_of_nothing();
    assert(costs(none).drop_last() =~= Seq::<int>::empty());
    assert(best_within(Seq::<int>::empty(), budget) == -1);
}

/// The prices that a list of categories holds.
spec fn prices_held(categories: Seq<ItemOptionCategory>) -> Seq<Seq<u32>> {
    Seq::new(categories.len(), |i: int| categories[i]@)
}

/// Categories of options and the budget for one option of each.
#[derive(Debug)]
pub struct ShopCart {
    item_option_categories: Vec<ItemOptionCategory>,
    budget: u32,
}

impl ShopCart {
    /// The prices of the options, category by category.
    pub closed spec fn categories(&self) -> Seq<Seq<u32>> {
        prices_held(self.item_option_categories@)
    }

    /// The most that a selection may cost.
    pub closed spec fn budget(&self) -> u32 {
        self.budget
    }

    /// What [`ShopCart::get_cost`] returns.
    pub open spec fn max_cost(&self) -> int {
        max_cost(self.categories(), self.budget() as int)
    }

    /// A cart without categories.
    pub fn new(budget: u32) -> (cart: Self)
        ensures
            cart.budget() == budget,
            cart.categories() == Seq::<Seq<u32>>::empty(),
    {
        let cart = Self { item_option_categories: Vec::new(), budget };
        cart
    }

    /// Adds a category behind those that the cart has.
    pub fn add_option_category<T: ToItemOptionCategory<K>, K>(&mut self, item_category: T)
        ensures
            final(self).budget() == old(self).budget(),
            final(self).categories() == old(self).categories().push(item_category.prices()),
    {
        self.item_option_categories.push(item_category.to_item_option_category());
    }

    /// A getter over the options of the categories, in their order.
    fn get_all_combinations(&self) -> (getter: CombinationsGetter<'_, ItemOption>)
        ensures
            getter.arrays().len() == self.categories().len(),
            forall|i: int|
                0 <= i < self.categories().len() ==> self.categories()[i] == Seq::new(
                    getter.arrays()[i].len(),
                    |j: int| getter.arrays()[i][j]@,
                ),
            getter.remaining() == combinations(lengths(self.categories())),
    {
        let mut arrays: Vec<&[ItemOption]> = Vec::new();
        let mut i: usize = 0;
        while i < self.item_option_categories.len()
            invariant
                i <= self.item_option_categories@.len(),
                arrays@.len() == i,
                forall|j: int|
                    0 <= j < i ==> arrays@[j]@ == self.item_option_categories@[j].options(),
            decreases self.item_option_categories@.len() - i,
        {
            arrays.push(self.item_option_categories[i].as_ref());
            i += 1;
        }
        let getter = CombinationsGetter::new(arrays.as_slice());
        assert(lengths(getter.arrays()) =~= lengths(self.categories()));
        getter
    }

    /// The sum of the prices of the options of a combination.
    fn total_price(combination: &Vec<&ItemOption>) -> (total: u128)
        ensures
            total == sum(prices_of(combination@)),
    {
        let ghost prices = prices_of(combination@);
        let mut total: u128 = 0;
        let mut i: usize = 0;
        while i < combination.len()
            invariant
                i <= combination@.len(),
                prices == prices_of(combination@),
                total == sum(prices.take(i as int)),
                total <= i * u32::MAX,
            decreases combination@.len() - i,
        {
            proof {
                assert(prices.take(i + 1).drop_last() =~= prices.take(i as int));
            }
            total = total + combination[i].price as u128;
            i += 1;
        }
        proof {
            assert(prices.take(i as int) =~= prices);
        }
        total
    }

    /// The cost of the cart: the largest total of one option per category
    /// that does not exceed the budget; `-1` when there is none, as when a
    /// category has no option. Every selection is looked at.
    pub fn get_cost(&self) -> (cost: i64)
        ensures
            cost == self.max_cost(),
            cost == -1 || (0 <= cost <= self.budget() && exists|cursors: Seq<int>|
                is_selection(lengths(self.categories()), cursors) && selection_cost(
                    self.categories(),
                    cursors,
                ) == cost),
            forall|cursors: Seq<int>|
                is_selection(lengths(self.categories()), cursors) && selection_cost(
                    self.categories(),
                    cursors,
                ) <= self.budget() ==> selection_cost(self.categories(), cursors) <= cost,
    {
        let ghost categories = self.categories();
        let ghost visited = combinations(lengths(categories));
        let ghost all = costs(categories);
        let mut getter = self.get_all_combinations();
        let ghost arrays = getter.arrays();
        let ghost seen: int = 0;
        let mut best: i64 = -1;
        loop
            invariant
                categories == self.categories(),
                visited == combinations(lengths(categories)),
                all == costs(categories),
                arrays == getter.arrays(),
                arrays.len() == categories.len(),
                forall|i: int|
                    0 <= i < categories.len() ==> categories[i] == Seq::new(
                        arrays[i].len(),
                        |j: int| arrays[i][j]@,
                    ),
                0 <= seen <= visited.len(),
                getter.remaining() == visited.skip(seen),
                best == best_within(all.take(seen), self.budget() as int),
            ensures
                best == best_within(all, self.budget() as int),
            decreases getter.remaining().len(),
        {
            match getter.next() {
                Some(combination) => {
                    let total = Self::total_price(&combination);
                    proof {
                        let cursors = visited[seen];
                        assert forall|i: int| 0 <= i < categories.len() implies picked_prices(
                            categories,
                            cursors,
                        )[i] == prices_of(combination@)[i] by {
                            lemma_combination_is_selection(lengths(categories), seen);
                        }
                        assert(prices_of(combination@) =~= picked_prices(categories, cursors));
                        assert(all.take(seen + 1).drop_last() =~= all.take(seen));
                        seen = seen + 1;
                    }
                    if total <= self.budget as u128 {
                        let cost: i64 = total as i64;
                        if cost > best {
                            best = cost;
                        }
                    }
                },
                None => {
                    proof {
                        assert(all.take(seen) =~= all);
                    }
                    break ;
                },
            }
        }
        proof {
            lemma_max_cost_is_best(categories, self.budget() as int);
        }
        best
    }
}

/// What a cart holds decides what it costs: carts with the same categories
/// and the same budget cost the same, on every call.
pub proof fn lemma_cost_repeats(first: &ShopCart, second: &ShopCart)
    requires
        first.categories() == second.categories(),
        first.budget() == second.budget(),
    ensures
        first.max_cost() == second.max_cost(),
{
}

/// Raising the budget never lowers the cost: of two carts with the same
/// categories, the one with the larger budget costs at least as much.
pub proof fn lemma_cost_rises_with_budget(poorer: &ShopCart, richer: &ShopCart)
    requires
        poorer.categories() == richer.categories(),
        poorer.budget() <= richer.budget(),
    ensures
        poorer.max_cost() <= richer.max_cost(),
{
    lemma_max_cost_monotone(poorer.categories(), poorer.budget() as int, richer.budget() as int);
}

/// A cart without categories costs 0, whatever its budget.
pub proof fn lemma_cost_of_empty_cart(cart: &ShopCart)
    requires
        cart.categories().len() == 0,
    ensures
        cart.max_cost() == 0,
{
    lemma_max_cost_of_no_categories(cart.budget() as int);
    assert(cart.categories() =~= Seq::<Seq<u32>>::empty());
}

/// What can be wrong with the text of a cart.
#[derive(Debug, Clone, Copy, PartialEq, Eq, Structural)]
pub enum ShopCartParseError {
    /// A line has no word where one is needed: the header has no budget.
    MissingField,
    /// The text has no line where one is needed: the header, or the line of
    /// a category that the header counts.
    MissingLine,
    /// A word that should be a number is none.
    NotAnInteger,
}

/// The prices that a line gives to a category counted with `count` options:
/// the numbers of its first `count` words, or of all its words where it has
/// fewer. Further words are not looked at. `None` where one of the words
/// looked at is no number.
pub open spec fn leading_numbers(line: Seq<char>, count: nat) -> Option<Seq<u32>> {
    let found = words(line);
    let taken = if count < found.len() {
        count
    } else {
        found.len()
    };
    if forall|j: int| 0 <= j < taken ==> (#[trigger] decimal(found[j])) is Some {
        Some(Seq::new(taken, |j: int| decimal(found[j])->Some_0))
    } else {
        None
    }
}

/// The category that word `i` of the header counts and line `i` lists. The
/// line is asked for first, then the count is read, then the prices.
pub open spec fn category_at(rows: Seq<Seq<char>>, header: Seq<Seq<char>>, i: int) -> Result<
    Seq<u32>,
    ShopCartParseError,
> {
    if i >= rows.len() {
        Err(ShopCartParseError::MissingLine)
    } else {
        match decimal(header[i]) {
            None => Err(ShopCartParseError::NotAnInteger),
            Some(count) => match leading_numbers(rows[i], count as nat) {
                None => Err(ShopCartParseError::NotAnInteger),
                Some(prices) => Ok(prices),
            },
        }
    }
}

/// The categories from word `i` of the header on, or what is wrong with the
/// first of them with which something is wrong.
pub open spec fn categories_from(rows: Seq<Seq<char>>, header: Seq<Seq<char>>, i: int) -> Result<
    Seq<Seq<u32>>,
    ShopCartParseError,
>
    decreases header.len() - i,
{
    if i >= header.len() {
        Ok(Seq::empty())
    } else {
        match category_at(rows, header, i) {
            Err(error) => Err(error),
            Ok(prices) => match categories_from(rows, header, i + 1) {
                Err(error) => Err(error),
                Ok(rest) => Ok(seq![prices] + rest),
            },
        }
    }
}

/// The budget and the categories that a text describes. The first line is
/// the header: the budget, then one count for each category. Each line after
/// it lists the prices of one category. Lines that no count stands for are
/// not looked at.
pub open spec fn parsed(text: Seq<char>) -> Result<(u32, Seq<Seq<u32>>), ShopCartParseError> {
    let rows = lines(text);
    if rows.len() == 0 {
        Err(ShopCartParseError::MissingLine)
    } else {
        let header = words(rows[0]);
        if header.len() == 0 {
            Err(ShopCartParseError::MissingField)
        } else {
            match decimal(header[0]) {
                None => Err(ShopCartParseError::NotAnInteger),
                Some(budget) => match categories_from(rows, header, 1) {
                    Err(error) => Err(error),
                    Ok(categories) => Ok((budget, categories)),
                },
            }
        }
    }
}

/// `done`, followed by the categories that come after it, if they are sound.
spec fn followed_by(done: Seq<Seq<u32>>, rest: Result<Seq<Seq<u32>>, ShopCartParseError>) -> Result<
    Seq<Seq<u32>>,
    ShopCartParseError,
> {
    match rest {
        Err(error) => Err(error),
        Ok(rest) => Ok(done + rest),
    }
}

/// Reads the prices of a category counted with `count` options from its
/// line.
fn read_category(line: &[char], count: u32) -> (category: Option<ItemOptionCategory>)
    ensures
        match leading_numbers(line@, count as nat) {
            Some(prices) => category is Some && category->Some_0@ == prices,
            None => category is None,
        },
{
    let found = split_words(line);
    let mut item_options: Vec<ItemOption> = Vec::new();
    let mut j: usize = 0;
    while j < found.len() && j < count as usize
        invariant
            contents(found@) == words(line@),
            j <= found@.len(),
            j <= count,
            item_options@.len() == j,
            forall|k: int|
                0 <= k < j ==> (#[trigger] decimal(words(line@)[k])) == Some(item_options@[k]@),
        decreases found@.len() - j,
    {
        assert(found@[j as int]@ == contents(found@)[j as int]);
        match parse_decimal(found[j]) {
            Some(price) => {
                item_options.push(ItemOption { price });
            },
            None => {
                return None;
            },
        }
        j += 1;
    }
    let category = ItemOptionCategory { item_options };
    Some(category)
}

impl TryFrom<&str> for ShopCart {
    type Error = ShopCartParseError;

    /// Reads a cart from its text: see [`parsed`].
    fn try_from(input: &str) -> (cart: Result<Self, Self::Error>)
        ensures
            match parsed(input@) {
                Ok((budget, categories)) => cart is Ok && cart->Ok_0.budget() == budget
                    && cart->Ok_0.categories() == categories,
                Err(error) => cart is Err && cart->Err_0 == error,
            },
    {
        let text = characters(input);
        let rows = split_lines(text.as_slice());
        if rows.len() == 0 {
            return Err(ShopCartParseError::MissingLine);
        }
        let header = split_words(rows[0]);
        if header.len() == 0 {
            return Err(ShopCartParseError::MissingField);
        }
        let budget = match parse_decimal(header[0]) {
            Some(budget) => budget,
            None => {
                return Err(ShopCartParseError::NotAnInteger);
            },
        };
        let ghost all_rows = lines(input@);
        let ghost all_counts = words(all_rows[0]);
        let mut item_option_categories: Vec<ItemOptionCategory> = Vec::new();
        let mut i: usize = 1;
        while i < header.len()
            invariant
                1 <= i <= header@.len(),
                contents(rows@) == all_rows,
                contents(header@) == all_counts,
                parsed(input@) == match categories_from(all_rows, all_counts, 1) {
                    Err(error) => Err(error),
                    Ok(categories) => Ok((budget, categories)),
                },
                categories_from(all_rows, all_counts, 1) == followed_by(
                    prices_held(item_option_categories@),
                    categories_from(all_rows, all_counts, i as int),
                ),
            decreases header@.len() - i,
        {
            if i >= rows.len() {
                return Err(ShopCartParseError::MissingLine);
            }
            let count = match parse_decimal(header[i]) {
                Some(count) => count,
                None => {
                    return Err(ShopCartParseError::NotAnInteger);
                },
            };
            let category = match read_category(rows[i], count) {
                Some(category) => category,
                None => {
                    return Err(ShopCartParseError::NotAnInteger);
                },
            };
            let ghost done = prices_held(item_option_categories@);
            let ghost prices = category@;
            item_option_categories.push(category);
            proof {
                assert(prices_held(item_option_categories@) =~= done.push(prices));
                if let Ok(rest) = categories_from(all_rows, all_counts, i + 1) {
                    assert(done + (seq![prices] + rest) =~= done.push(prices) + rest);
                }
            }
            i += 1;
        }
        Ok(ShopCart { item_option_categories, budget })
    }
}

impl TryFromSpecImpl<&str> for ShopCart {
    /// Two carts read from one text hold the same and are still two values,
    /// so no cart can be named as the one that `try_from` returns: its
    /// contract is stated over what the cart holds.
    open spec fn obeys_try_from_spec() -> bool {
        false
    }

    /// The error that the text earns, or some cart that holds what the text
    /// describes.
    open spec fn try_from_spec(input: &str) -> Result<Self, ShopCartParseError> {
        match parsed(input@) {
            Err(error) => Err(error),
            Ok((budget, categories)) => Ok(
                choose|cart: ShopCart| cart.budget() == budget && cart.categories() == categories,
            ),
        }
    }
}

} // verus!
