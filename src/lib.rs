//! An ahead-of-time compiler core for a small imperative language: a lexer,
//! a recursive-descent parser, a constant-folding partial evaluator, a pass
//! into A-normal form, and an x86-64 (NASM) code generator. Each stage
//! states what it computes over a mathematical model of its input.

pub mod ast;
pub mod codegen;
pub mod parser;
pub mod partial_evaluator;
pub mod pipeline;
pub mod remove_complex_operands;
pub mod text;
pub mod tokenizer;
