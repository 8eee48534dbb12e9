//! Sets of 32-bit integers kept as sorted, disjoint, non-adjacent closed ranges,
//! with the token and stream interfaces that use them.
use vstd::prelude::*;

pub mod char_stream;
pub mod int_stream;
pub mod interval;
pub mod interval_model;
pub mod interval_set;
pub mod laws;
pub mod text;
pub mod token;
pub mod vocabulary;

pub use char_stream::CharStream;
pub use int_stream::{IntStream, INT_STREAM_EOF};
pub use interval::Interval;
pub use interval_set::{subtract_intervalsets, IntervalSet, IntervalSetError};
pub use token::{Token, TokenChannel, TokenType};
pub use vocabulary::{Vocabulary, VocabularyImpl};

verus! {

} // verus!
