//! A queryable index over structured JSON logs.
//!
//! Log lines become events ([`tailer`]), events go into an index ([`index`]), and queries
//! ([`parser`], [`query`]) select events of it or compute numbers from them. A write-ahead log
//! ([`wal`]) and snapshots ([`snapshot`], [`checkpoint`]) let a daemon go on where it stopped
//! ([`recover`]).

pub mod bytes;
pub mod text;

pub mod binary32;
pub mod natural;
pub mod rounding;
pub mod narrowing;
pub mod arithmetic;
pub mod decimal;
pub mod literal;
pub mod number_laws;
pub mod literal_laws;

pub mod time;
pub mod json;
pub mod value;
pub mod event;

pub mod query;
pub mod grammar;
pub mod grammar_laws;
pub mod phrases;
pub mod parser;

pub mod sort;
pub mod parallel;
pub mod field_index;
pub mod time_index;
pub mod index;
pub mod index_laws;
pub mod query_laws;
pub mod aggregation_laws;
pub mod follow;

pub mod wal;
pub mod snapshot;
pub mod checkpoint;
pub mod tailer;
pub mod line_laws;
pub mod language_laws;
pub mod recover;
pub mod persistence_laws;

pub mod message;
pub mod handler;
pub mod client;
pub mod message_laws;
pub mod daemon;
pub mod daemon_laws;
