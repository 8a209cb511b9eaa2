//! A small Lua-like language: a lexer over bytes, a single-pass compiler to
//! register bytecode, and an executor for that bytecode.
//!
//! A program is a sequence of statements: declarations of local variables,
//! assignments to variables and to keys of tables, and calls. Its values
//! are nil, booleans, integers, numbers with a fraction, strings, tables
//! and the functions that the library provides.
//!
//! - [`lex`] turns bytes into tokens, with one token of lookahead. What a
//!   lexer has yet to hand out is a stream of tokens, and its functions are
//!   stated over that stream.
//! - [`parse`] compiles the stream into a program: a constant pool and
//!   instructions ([`bytecode`]). What it compiles to is stated by the
//!   functions of `parse::Proto`; no constant stands twice in a program, and
//!   no instruction of a compiled program reaches a register or a constant
//!   out of range.
//! - [`vm`] runs a program on a state: a stack of registers, the global
//!   variables, the tables, and the output written so far. What a run does
//!   is stated by the functions of `vm::State`. A run ends at the last
//!   instruction or at the first fault.
//! - [`lualib`] holds the functions that programs can call: `print`, `type`,
//!   `ipairs` and counters.
//! - [`value`], [`number`], [`table`], [`fields`] and [`vhash`] hold the
//!   values and the containers that the others work with.
//!
//! No function of the library reads a file or writes to a terminal: a
//! program comes in as bytes, and what it prints is kept in the state.
pub mod bytecode;
pub mod fields;
pub mod lex;
pub mod lualib;
pub mod number;
pub mod parse;
pub mod table;
pub mod value;
pub mod vhash;
pub mod vm;
