//! rQUE: in-memory storage of named groups of items, meant for waiting
//! lists and queues. Each group is a list of items; an item is a non-empty
//! list of strings whose first element is its head.
pub mod data_storage;
pub mod globals;
pub mod routes;
pub mod utils;
