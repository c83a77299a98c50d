//! The parts of a streaming database that decide: the hash join of two change streams, the creation
//! of databases, the election of a leader, and what stands around them.
#![allow(non_snake_case)]
#![allow(non_upper_case_globals)]

pub mod JoinType;
pub mod SideType;
pub mod chunk;
pub mod create_database;
pub mod election;
pub mod executor_laws;
pub mod function_catalog;
pub mod ha_setup;
pub mod hash_join;
pub mod join_append;
pub mod join_builder;
pub mod join_history;
pub mod join_kind;
pub mod join_laws;
pub mod join_meaning;
pub mod join_mirror;
pub mod join_model;
pub mod join_run;
pub mod join_state;
pub mod join_step;
pub mod join_stream;
pub mod key_set;
pub mod keyed;
pub mod recency;
pub mod row;
pub mod schema;
pub mod stream_history;
pub mod stream_laws;
pub mod stream_mirror;
pub mod stream_run;
pub mod text;
