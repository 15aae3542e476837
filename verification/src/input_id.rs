//! Names of inputs.

use vstd::prelude::*;

verus! {

/// The name of an input.
#[derive(Debug)]
pub struct InputId {
    pub name: String,
}

impl View for InputId {
    type V = Seq<char>;

    open spec fn view(&self) -> Seq<char> {
        self.name@
    }
}

impl InputId {
    /// A copy of the name.
    pub fn copied(&self) -> (r: Self)
        ensures
            r == *self,
    {
        InputId { name: self.name.clone() }
    }

    /// Whether both name the same input.
    pub fn same(&self, other: &Self) -> (r: bool)
        ensures
            r == (self@ == other@),
    {
        self.name == other.name
    }
}

} // verus!
