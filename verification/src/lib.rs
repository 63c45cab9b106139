//! Builds a typed abstract syntax tree from arithmetic expression text.
//!
//! The input language is a flat sequence of unsigned decimal integer
//! literals joined by the binary operators `+ - * / % ^`, with ASCII
//! spaces allowed between tokens.  Parsing encodes the fixed operator
//! precedence (`+ -` < `* / %` < `^`) and associativity (`^` groups to
//! the right, every other operator to the left) by precedence climbing.
//! The result is either an [`ast::Expression`] tree or an
//! [`ast::ParseError`] naming the failure and where it happened;
//! evaluation of the expression is out of scope.

pub mod ast;
pub mod builder;
pub mod lexer;
pub mod literal;
pub mod parser;
pub mod precedence;

pub use ast::Expression;
pub use ast::InfixOp;
pub use ast::ParseError;
pub use parser::do_parse;
