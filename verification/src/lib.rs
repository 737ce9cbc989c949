//! Arithmetic expressions over decimal numbers: splitting a text into
//! tokens, conversion to postfix order, evaluation against a context of
//! named values, and resolution of batches of expressions that refer to one
//! another.

pub mod batch;
pub mod context;
pub mod decimal;
pub mod error;
pub mod evaluator;
pub mod laws;
pub mod number;
pub mod operator;
pub mod postfix;
pub mod tokenizer;
pub mod tree;

pub use crate::batch::{evaluate_expressions, Resolver};
pub use crate::context::{Context, Expressions, NameMap};
pub use crate::error::EvalError;
pub use crate::evaluator::{evaluate_expression, evaluate_operator, evaluate_postfix, get_val};
pub use crate::number::Number;
pub use crate::operator::operator_precedence;
pub use crate::postfix::{reverse_polish_notate, to_postfix};
pub use crate::tokenizer::{classify, tokenize, tokenize_classified, Classified};
