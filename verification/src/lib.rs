//! Finding Unicode characters by typing: the character database is read into
//! a store of entries, a query ranks the store by fuzzy match, and a session
//! keeps the query, the ranked table and the selected row as events come in.

pub mod app;
pub mod event;
pub mod fuzzy;
pub mod hex;
pub mod sort;
pub mod text;
pub mod ucd;
