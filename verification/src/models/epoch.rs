//! The epoch token that the test system hands out and expects back.
use vstd::prelude::*;

verus! {

/// The epoch that a fresh run starts from: the nil UUID.
pub const NIL_EPOCH: &'static str = "00000000-0000-0000-0000-000000000000";

/// An epoch as the test system writes it: a plain string.
#[derive(Clone, Debug)]
pub struct Epoch {
    pub content: String,
}

impl Epoch {
    /// The epoch of a fresh run, whose text is [`NIL_EPOCH`].
    pub fn new() -> (e: Epoch)
        ensures
            e.content@ == NIL_EPOCH@,
    {
        Epoch { content: String::from_str(NIL_EPOCH) }
    }

    /// The epoch whose text is `str`.
    pub fn from(str: &String) -> (e: Epoch)
        ensures
            e.content@ == str@,
    {
        Epoch { content: str.clone() }
    }

    /// The text that the epoch displays as, which is its content.
    pub fn to_string(&self) -> (s: String)
        ensures
            s@ == self.content@,
    {
        self.content.clone()
    }
}

} // verus!
