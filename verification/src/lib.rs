//! A verified parser for a plain-text double-entry ledger language: it
//! segments raw text into statements, reads dates, amounts, directives and
//! multi-line transactions, and checks the double-entry balance invariant
//! with exact decimal arithmetic.
pub mod date;
pub mod decimal;
pub mod parser;
pub mod text;
pub mod types;
