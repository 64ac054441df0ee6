//! Solvers for a set of small text puzzles, each a pure function from the
//! lines of an input to one or two numbers.
//!
//! The centre of the library is [`springs`]: counting the ways to resolve the
//! unknown springs of a condition record so that its runs of broken springs
//! match a list of run lengths. The other modules solve one puzzle each.
pub mod text;
pub mod springs;
pub mod trebuchet;
pub mod cubes;
pub mod gears;
pub mod scratchcards;
pub mod almanac;
pub mod races;
pub mod camel_cards;
pub mod network;
pub mod oasis;
pub mod pipes;
pub mod galaxies;
pub mod mirrors;
