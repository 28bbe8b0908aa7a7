//! Fibonacci numbers of arbitrary size: a natural-number type backed by the
//! `num-bigint` arithmetic, 2x2 matrix exponentiation, and several ways of
//! producing the first `count` Fibonacci numbers, all proved to agree with
//! the mathematical Fibonacci sequence.

pub mod assemble;
pub mod bignat;
pub mod fibonacci;
pub mod math;
pub mod spec;
