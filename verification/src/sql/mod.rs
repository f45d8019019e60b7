//! A small SQL front end: tokens, statements, plans, and their execution against a catalog.
pub mod ast;
pub mod catalog;
pub mod engine;
pub mod executor;
pub mod lexer;
pub mod parser;
pub mod planner;
