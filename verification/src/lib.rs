//! Verified core of a small quantized transformer runtime: the model
//! header, the weight-file layout and cache addressing, the tokenizer,
//! greedy sampling on float bit patterns, the chat-loop decisions, and the
//! tensor handling of the checkpoint converter.
pub mod model;
pub mod float_bits;
pub mod tokenizer;
pub mod layout;
pub mod chat;
pub mod convert;
