//! Support primitives for a bytecode interpreter: a cursor over an immutable
//! program that reads instruction bytes and decides which offsets are real
//! instruction starts, and a small operand stack of integers.

mod code_stream;
mod stack;

pub use code_stream::{
    is_candidate, is_instruction_start, lemma_caches_disjoint, lemma_caches_sound,
    lemma_consecutive_reads, lemma_past_end_is_not_start, lemma_query_idempotent, lookback, pushes_over, query_post, CodeStream, PUSH1, PUSH32, STOP,
};
pub use stack::{lemma_push_then_pop, Stack};
