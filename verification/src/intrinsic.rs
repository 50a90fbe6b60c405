//! Resumable codecs for the intrinsic composite shapes, each built with
//! the chain pattern: a linear sequence of slot states, attempted
//! synchronously first and suspended only when a nested codec suspends.
//!
//! A dedicated codec for fixed-size arrays is not provided: building an
//! array element by element from decoded values has no safe, specified
//! construction path here, so the fixed-slot chain is covered by the
//! two-field aggregate and by the sequence codec instead.

pub mod empty;
pub mod option;
pub mod pair;
pub mod result;
pub mod string;
