//! Bracket validation with configurable alphabets and error policies,
//! together with the small collection types the validators are built on:
//! a LIFO stack, two FIFO queue modules, and a rectangular grid.
//!
//! Every executable function carries a contract relating it to a
//! mathematical model (sequences of characters, frames, and errors), and
//! the laws the validators obey are stated as proof functions next to the
//! code they speak about.

pub mod basic;
pub mod extended;
pub mod grid;
pub mod parser;
pub mod queue;
pub mod queue_alt;
pub mod solver;
pub mod stack;

pub use extended::validate_brackets;
pub use extended::validate_indexed;
pub use extended::validate_indexed_iter;
pub use extended::validate_iter;
pub use extended::validate_with_options;
pub use extended::Alphabet;
pub use extended::BracketError;
pub use extended::BracketErrorKind;
pub use extended::ErrorMode;
pub use extended::Options;
pub use extended::UnclosedPolicy;
pub use grid::Grid;
pub use stack::Stack;
