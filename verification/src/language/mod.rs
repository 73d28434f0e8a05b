pub mod counter;
pub mod dictionary;

pub use dictionary::{Dictionary, DictionaryConstant, DictionaryOperator, Operator};
