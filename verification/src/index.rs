pub mod builder;
pub mod postings;
pub mod store;
