use vstd::prelude::*;

verus! {

/// A failure to assemble the diagram text.
pub struct Error {
    pub message: String,
}

impl Error {
    /// The failure, in words.
    pub fn description(&self) -> (r: String)
        ensures
            r@ == self.message@,
    {
        self.message.clone()
    }
}

} // verus!
