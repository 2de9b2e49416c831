//! A small graph storage engine: typed nodes and edges with schema-less
//! properties, an in-process store with filtered and paginated search,
//! multi-hop traversal, SQL statements for a relational store, and the
//! hierarchical addresses that give nodes stable, derivable identifiers.
pub mod address;
pub mod ids;
pub mod link;
pub mod model;
pub mod query;
pub mod search;
pub mod sql;
pub mod store;
pub mod text;
pub mod traversal;
