//! Plural rules of the CLDR: a parser for the rule language, the operands of a
//! number, an evaluator, sample validation and plural category selection.
pub mod ast;
pub mod eval;
pub mod lexer;
pub mod operands;
pub mod parser;
pub mod samples;
pub mod serializer;
