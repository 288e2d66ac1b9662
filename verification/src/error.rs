use vstd::prelude::*;

verus! {

/// The two failure kinds of the codec.
///
/// `EncodingError` is returned by decoders for any framing or column
/// violation; `InvalidChange` is returned by encoders for operand-level
/// problems in a logical change.
#[derive(PartialEq, Eq, Structural, Debug, Clone, Copy)]
pub enum AutomergeError {
    EncodingError,
    InvalidChange,
}

} // verus!
