//! Shopping carts under a budget.
//!
//! A cart holds categories of priced options. A selection takes one option
//! from every category, and the cart costs as much as the dearest selection
//! that its budget covers.
//!
//! - [`utils`]: the walk over all selections, as a getter of combinations.
//! - [`shop`]: options, categories and carts; the cost of a cart; carts read
//!   from text.
//! - [`text`]: lines, words and decimal numbers.

pub mod shop;
pub mod text;
pub mod utils;

pub use shop::{ItemOption, ItemOptionCategory, ShopCart, ShopCartParseError};
pub use shop::{ToItemOption, ToItemOptionCategory};
pub use utils::CombinationsGetter;
