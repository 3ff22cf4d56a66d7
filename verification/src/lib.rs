//! A recursive file-name finder and a numbered-menu selector, both written as
//! pure decision procedures: the caller performs the input and output, the
//! library says what to do next and what the answer is.

pub mod find;
pub mod numeral;
pub mod path;
pub mod select;
pub mod traversal;
pub mod tree;
