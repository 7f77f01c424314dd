//! A parser for the JVM class file format, with verified contracts.

pub mod attributes;
pub mod bytecode;
pub mod class;
pub mod constant_pool;
pub mod cursor;
pub mod error;
pub mod flags;
pub mod names;
