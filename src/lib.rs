//! Causal ordering of content-addressed messages.
//!
//! A message that references another by its hash was published after it
//! (the hash function is not broken, nobody guessed the hash of a message
//! before it existed). Sorting follows those references: every message comes
//! before the supplied messages it references, so the result runs from the
//! newest message to the oldest.
mod dag;
mod message_id;
mod sort;
mod structured;

pub use message_id::{id_views, legacy_id_of, parse_message_id, same_id, MessageId};
pub use sort::{
    causal_sort, depends, has_cycle, is_causal_order, is_first, lemma_causal_order_has_no_cycle,
    lemma_each_identifier_once, lemma_orphan_appears_once, supplied, total_ids, CausalSortError,
};
pub use structured::{
    extract_references, id_in_text, lemma_extraction_repeatable, refs_in, refs_in_entries, refs_in_items,
    StructuredValue,
};
