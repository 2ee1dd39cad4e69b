pub mod common;
pub mod leases;
pub mod lex;
pub mod parser;
