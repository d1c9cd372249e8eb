//! A flat-file record database: tab-separated records with a write-ahead section,
//! secondary index files, and the queries that run over them.
pub mod action;
pub mod answers;
pub mod apply;
pub mod asking;
pub mod base62;
pub mod calendar;
pub mod choosing;
pub mod cli;
pub mod clock;
pub mod compact;
pub mod config;
pub mod conflicts;
pub mod current;
pub mod database;
pub mod dotsv;
pub mod effects;
pub mod error;
pub mod escape;
pub mod fields;
pub mod filter;
pub mod forms;
pub mod index;
pub mod json;
pub mod keytype;
pub mod lock;
pub mod lookup;
pub mod numorder;
pub mod order;
pub mod paths;
pub mod places;
pub mod plane;
pub mod query;
pub mod queue;
pub mod record;
pub mod records;
pub mod relate;
pub mod reload;
pub mod reports;
pub mod resolve;
pub mod rows;
pub mod selection;
pub mod session;
pub mod settings;
pub mod shapes;
pub mod show;
pub mod sorted;
pub mod text;
pub mod trees;
pub mod turns;
pub mod typing;
pub mod valid;
pub mod writing;
