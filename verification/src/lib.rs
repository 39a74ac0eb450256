//! A use-case-aware transaction shuffler.
//!
//! The shuffler reorders a finite sequence of transactions so that
//! transactions of one sender, and transactions of one use case, are spread
//! apart in the output. The order is a pure function of the input and of the
//! three spread factors of the [`Config`].
//!
//! The functions of this crate are verified against the contracts they
//! carry. One contract is taken on trust: that of `least_key` in
//! [`delay_key`], which asks the standard library for the first key of a
//! `BTreeMap`.
//!
//! The behaviour of the scheduler is stated over a small mathematical
//! model, [`model::QueueState`], and that of the whole shuffle over
//! [`selection::ShufflerState`]. What holds of every output is proved in
//! [`laws`] and [`spread`].
//!
//! Beside the shuffler the crate holds a few plain types of the node that
//! runs it: the switches of the consensus observer, the events of the DAG
//! log, names of functions on the chain, and locations of peers.

pub mod account;
pub mod config;
pub mod consensus_observer_config;
pub mod course;
pub mod delay_key;
pub mod delayed_queue;
pub mod function_info;
pub mod iterator;
pub mod laws;
pub mod logging;
pub mod model;
pub mod order;
pub mod peer_location;
pub mod picked;
pub mod selection;
pub mod shuffler;
pub mod spread;
pub mod tables;
pub mod types;
pub mod use_case;

pub use crate::account::{Account, TxnWithInputIdx};
pub use crate::config::Config;
pub use crate::consensus_observer_config::ConsensusObserverConfig;
pub use crate::delay_key::DelayKey;
pub use crate::delayed_queue::DelayedQueue;
pub use crate::function_info::FunctionInfo;
pub use crate::iterator::ShuffledTransactionIterator;
pub use crate::logging::{LogEvent, LogSchema};
pub use crate::peer_location::PeerLocation;
pub use crate::shuffler::UseCaseAwareShuffler;
pub use crate::types::{Address, InputIdx, OutputIdx, Transaction, UseCaseKey};
