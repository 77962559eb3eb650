//! A first-order Markov chain over space-separated tokens: learning
//! transition counts from texts, and synthesising text by a weighted walk.
//!
//! - [`text`]: trimming, tokens and byte lengths of texts.
//! - [`input`]: the transitions that a submitted text teaches.
//! - [`generator`]: the weighted choice of a next token, and the walk as a
//!   sequence of steps that a driver feeds with what it fetched.
//! - [`chain`]: the chain itself, held in memory, and what any store of it
//!   has to do.
//! - [`counts`]: what holds of the counts whatever is learned, in whatever
//!   order.
//! - [`error`]: the failures, and the outcome of a batch of operations.

pub mod chain;
pub mod counts;
pub mod error;
pub mod generator;
pub mod input;
pub mod text;
