use vstd::prelude::*;

verus! {

/// The place of a node in the source text. Positions are not tracked yet, so
/// every span is the same empty value.
#[derive(Debug, Clone, Copy, PartialEq, Eq, Structural)]
pub struct Span {}

impl Default for Span {
    fn default() -> (span: Self)
        ensures
            span == (Span {}),
    {
        Span {}
    }
}

} // verus!
