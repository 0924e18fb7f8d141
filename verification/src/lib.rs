//! A fan-out notifier library: a multi-pattern substring-matching index
//! (a 256-fan-out Patricia-style radix tree over byte phrases) together with
//! the pure decision logic around it: subscriber records, hex key decoding,
//! signed delivery payloads, delivery-response policy, and the admin
//! authorization check.

pub mod admin;
pub mod bulk_search_tree;
pub mod codec;
pub mod delivery;
pub mod didmap;
