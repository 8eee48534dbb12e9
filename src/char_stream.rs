use vstd::prelude::*;

use crate::int_stream::IntStream;
use crate::interval::Interval;

verus! {

/// A stream of characters that can hand back the text of a range of positions.
pub trait CharStream: IntStream {
    fn get_text(interval: Interval) -> String;
}

} // verus!
