//! A small arithmetic-expression pipeline: a lexer that turns flat text into
//! tokens, a shunting-yard parser that rewrites the token sequence into
//! postfix (Reverse Polish) order, and the token model both stages share.
//!
//! Every stage is a pure function of its input and is verified against a
//! mathematical model of the token stream. Evaluation of the postfix form is
//! floating-point work and lives with the callers of this library.

pub mod digit;
pub mod literal;
pub mod operator;
pub mod parser;
pub mod scanner;
pub mod token;
pub mod tokenizer;
