//! The cube language: lexer, parser and evaluator, verified with Verus.
//!
//! Source text becomes tokens ([`lexer`], held to [`lexical`]), tokens become
//! a syntax tree ([`parser`], held to the [`grammar`]), and the tree is run by
//! a machine that takes one step at a time ([`machine`], [`interpreter`]).
//! The driver of the machine writes the lines that the program prints and
//! does its floating-point arithmetic; everything else is decided here.
//!
//! What a program means is said node by node in [`semantics`]. That the
//! machine does what the semantics says is proved in [`refinement`]; that a
//! program without floating-point literals needs no driver for it, in
//! [`plain`]. [`scoping`], [`operands`] and [`visibility`] prove what holds
//! of every run: the scopes and the values are those that the work left to
//! do accounts for, and what is declared in a block is gone when the block
//! ends. [`precedence`] proves how the grammar groups operators.
//!
//! The front end loses nothing and invents nothing: [`spelling`] proves
//! that tokens are the lexing of their own spelling, [`unparse`] that every
//! tree the parser builds is the parse of its own tokens, and [`source`] that
//! the text of a program is read back as the program. [`programs`] follows
//! some small programs from their text to their output.

pub mod text;
pub mod token;
pub mod lexical;
pub mod lexer;
pub mod spelling;
pub mod ast;
pub mod grammar;
pub mod parser;
pub mod precedence;
pub mod unparse;
pub mod source;
pub mod value;
pub mod operators;
pub mod environment;
pub mod machine;
pub mod interpreter;
pub mod scoping;
pub mod operands;
pub mod semantics;
pub mod refinement;
pub mod plain;
pub mod visibility;
pub mod programs;
