use vstd::prelude::*;

verus! {

/// Why a ring buffer turned a request down.
#[derive(Clone, Copy, Debug, PartialEq, Eq, Structural)]
pub enum RingBufferError {
    Full,
    Empty,
}

impl RingBufferError {
    /// The text of the error.
    pub open spec fn message(self) -> Seq<char> {
        match self {
            RingBufferError::Empty => "There are no items"@,
            RingBufferError::Full => "The buffer is full"@,
        }
    }

    /// The error as text for people.
    pub fn to_string(&self) -> (text: String)
        ensures
            text@ == self.message(),
    {
        match self {
            RingBufferError::Empty => "There are no items".to_owned(),
            RingBufferError::Full => "The buffer is full".to_owned(),
        }
    }
}

} // verus!
