//! An in-process associative link store: every entity is a doublet
//! `(index, source, target)`, indexed by two size-balanced trees that live
//! inside the link records themselves.

mod doublets;
mod error;
mod laws;
mod link;
mod node;
mod sbt;
mod slab;
mod store;

pub use doublets::{create_heap_store, get_or_create_post, rebased, replace};
pub use error::Error;
pub use laws::{
    after_inserts, after_removes, lemma_create_then_get, lemma_delete_then_get,
    lemma_each_visits_once, lemma_get_or_create_idempotent, lemma_insert_remove_roundtrip,
    lemma_search_agrees_with_each, lemma_update_then_get, pair_query,
};
pub use link::{Constants, Flow, Link, NodeType, ANY};
pub use node::{Node, RawLink, Tree};
pub use sbt::Shape;
pub use slab::Alloc;
pub use store::{
    comes_before, create_pair, create_post, delete_post, is_exact_pair, q_index, q_source,
    q_target, update_post, Store, INITIAL_CAPACITY,
};
