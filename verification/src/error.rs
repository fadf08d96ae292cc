//! Error types.

use vstd::prelude::*;

use crate::double::Double;

verus! {

/// Text of an error. Doubles are kept apart from the text: the `k`-th `{}`,
/// `{:?}` or `{:.3e}` in `text` stands for `doubles[k]`, written plainly, always
/// with a fractional part, or in scientific notation with three decimals.
#[derive(Debug, PartialEq, Eq)]
pub struct Message {
    /// The text, with a placeholder for each double.
    pub text: String,
    /// The doubles, in the order in which the text mentions them.
    pub doubles: Vec<Double>,
}

impl Message {
    /// The message is exactly this text, with no double in it.
    pub open spec fn says(self, text: Seq<char>) -> bool {
        self.text@ == text && self.doubles@ == Seq::<Double>::empty()
    }

    /// The message is this text with these doubles.
    pub open spec fn says_of(self, text: Seq<char>, doubles: Seq<Double>) -> bool {
        self.text@ == text && self.doubles@ == doubles
    }

    /// A message without doubles.
    pub fn plain(text: &str) -> (m: Message)
        ensures
            m.says(text@),
    {
        Message { text: text.to_owned(), doubles: Vec::new() }
    }

    /// A message without doubles, from text at hand.
    pub fn owned(text: String) -> (m: Message)
        ensures
            m.says(text@),
    {
        Message { text, doubles: Vec::new() }
    }

    /// A message that mentions one double.
    pub fn about(text: &str, double: Double) -> (m: Message)
        ensures
            m.says_of(text@, seq![double]),
    {
        let mut doubles: Vec<Double> = Vec::new();
        doubles.push(double);
        Message { text: text.to_owned(), doubles }
    }
}

impl Message {
    /// A message that mentions several doubles.
    pub fn with(text: String, doubles: Vec<Double>) -> (m: Message)
        ensures
            m.says_of(text@, doubles@),
    {
        Message { text, doubles }
    }
}

/// All errors produced by this crate.
#[derive(Debug, PartialEq, Eq)]
#[non_exhaustive]
pub enum GeostatError {
    /// The dataset is empty or too small for the requested operation.
    InsufficientData(Message),
    /// Mismatched lengths or shapes between inputs.
    DimensionMismatch(Message),
    /// A kriging system could not be solved.
    SingularSystem(Message),
    /// An invalid parameter value was supplied.
    InvalidParameter(Message),
    /// No conditioning points were found inside the search neighborhood.
    NoNeighbors,
    /// Two data points share exactly the same coordinates, which makes the
    /// kriging system singular. Collapse or jitter duplicates first.
    DuplicatePoints(usize, usize),
}

/// The error refuses a parameter with this text.
pub open spec fn invalid(e: GeostatError, text: Seq<char>) -> bool {
    e matches GeostatError::InvalidParameter(m) && m.says(text)
}

/// The error refuses a parameter with this text, which mentions these doubles.
pub open spec fn invalid_of(e: GeostatError, text: Seq<char>, doubles: Seq<Double>) -> bool {
    e matches GeostatError::InvalidParameter(m) && m.says_of(text, doubles)
}

/// The error reports mismatched lengths with this text.
pub open spec fn mismatch(e: GeostatError, text: Seq<char>) -> bool {
    e matches GeostatError::DimensionMismatch(m) && m.says(text)
}

/// The error reports too little data with this text.
pub open spec fn insufficient(e: GeostatError, text: Seq<char>) -> bool {
    e matches GeostatError::InsufficientData(m) && m.says(text)
}

/// The error reports a system that cannot be solved, with this text and these
/// doubles.
pub open spec fn singular(e: GeostatError, text: Seq<char>, doubles: Seq<Double>) -> bool {
    e matches GeostatError::SingularSystem(m) && m.says_of(text, doubles)
}

/// A system that cannot be solved.
pub fn unsolvable(text: String, a: Double, b: Double) -> (e: GeostatError)
    ensures
        singular(e, text@, seq![a, b]),
{
    let mut doubles: Vec<Double> = Vec::new();
    doubles.push(a);
    doubles.push(b);
    assert(doubles@ =~= seq![a, b]);
    GeostatError::SingularSystem(Message::with(text, doubles))
}

/// A refused parameter.
pub fn invalid_parameter(text: &str) -> (e: GeostatError)
    ensures
        invalid(e, text@),
{
    GeostatError::InvalidParameter(Message::plain(text))
}

/// A refused parameter, with a double.
pub fn invalid_double(text: &str, double: Double) -> (e: GeostatError)
    ensures
        invalid_of(e, text@, seq![double]),
{
    GeostatError::InvalidParameter(Message::about(text, double))
}

/// Mismatched lengths.
pub fn mismatched(text: String) -> (e: GeostatError)
    ensures
        mismatch(e, text@),
{
    GeostatError::DimensionMismatch(Message::owned(text))
}

/// Too little data.
pub fn too_little(text: &str) -> (e: GeostatError)
    ensures
        insufficient(e, text@),
{
    GeostatError::InsufficientData(Message::plain(text))
}

} // verus!
