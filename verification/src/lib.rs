//! A single-table storage engine: a B+-tree of fixed-size pages over a paged
//! backing image, with point lookup, insertion and ordered scans.

pub mod btree;
pub mod bytes;
pub mod cursor;
pub mod datastore;
pub mod error;
pub mod fetchable;
pub mod grow;
pub mod node;
pub mod node_type;
pub mod page;
pub mod pager;
pub mod search;
pub mod shape;
pub mod statement;

pub use crate::datastore::{ExecuteResult, Row, Table};
pub use crate::error::DbError;
pub use crate::statement::{Statement, StatementType};
