//! Statement parsing and conditions over rows of text values.

pub mod parser;
