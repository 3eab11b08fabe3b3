//! Propositional-logic truth tables.
//!
//! The crate compiles a text expression into an abstract syntax tree
//! ([`expr::Expr`]) with a lexer ([`lexer::Lexer`]) and a
//! precedence-climbing parser ([`parser::Parser`]), finds the free
//! variables of the tree, and evaluates it under every boolean
//! assignment to produce a [`solver::TruthTable`].

pub mod expr;
pub mod laws;
pub mod lexer;
pub mod parser;
pub mod solver;
pub mod table;
pub mod ui;
