pub mod parser;
pub mod retrieval;
pub mod scorer;
