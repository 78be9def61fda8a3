pub mod error;
pub mod grammar;
pub mod laws;
pub mod report;
pub mod runner;
pub mod scanner;
pub mod text;
pub mod token;
