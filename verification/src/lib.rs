//! Exercises on ownership, error handling, parsing and performance,
//! with their logic verified.
pub mod primes;
pub mod text;
pub mod int_parse;
pub mod str_map;
pub mod commands;
pub mod documents;
pub mod layered_errors;
pub mod derived_errors;
pub mod nested_errors;
pub mod cpu_work;
pub mod random_work;
pub mod memory;
pub mod text_tasks;
pub mod chunk_stream;
