//! The epoch as a value whose text is kept to itself.
use vstd::prelude::*;
use crate::models::epoch::NIL_EPOCH;

verus! {

/// An epoch whose text only its representation shows.
pub struct Epoch {
    content: String,
}

impl View for Epoch {
    type V = Seq<char>;

    closed spec fn view(&self) -> Seq<char> {
        self.content@
    }
}

/// A value with a textual representation.
pub trait RepresentableEpoch {
    fn repr(&self) -> String;
}

impl Epoch {
    /// The epoch of a fresh run, whose text is the nil UUID.
    pub fn new() -> (e: Epoch)
        ensures
            e@ == NIL_EPOCH@,
    {
        Epoch { content: String::from_str(NIL_EPOCH) }
    }

    /// The epoch whose text is `str`.
    pub fn from(str: &String) -> (e: Epoch)
        ensures
            e@ == str@,
    {
        Epoch { content: str.clone() }
    }
}

impl RepresentableEpoch for Epoch {
    /// The epoch's text.
    fn repr(&self) -> (r: String)
        ensures
            r@ == self@,
    {
        self.content.clone()
    }
}

} // verus!
