//! Labels a stream of bid/ask quotes: for each originating quote, a bank of
//! threshold checks records whether a favorable or an adverse price move is
//! touched first by the quotes that follow it.
pub mod checks;
pub mod handler;
pub mod labeler;
pub mod quote;
