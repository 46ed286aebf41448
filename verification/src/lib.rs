pub mod data;
pub mod fmt;
pub mod formatter;
pub mod lex;
pub mod text;
pub mod thread_pool;
pub mod tracker;
pub mod parse;
pub mod runner;
pub mod spec;
pub mod util;
