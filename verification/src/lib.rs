pub mod analysis;
pub mod crawler;
pub mod index;
pub mod query;
pub mod table;
