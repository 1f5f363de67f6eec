//! A limit order matching engine, together with the small collaborators that
//! may sit around it: a failure-isolating circuit breaker, client identities
//! for request throttling, and an event-sourced wallet ledger.

pub mod order_book;
pub mod wallet;
pub mod wallet_service;
pub mod circuit_breaker;
pub mod client;
