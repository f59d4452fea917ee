use vstd::prelude::*;

verus! {

/// A row, column or block number. There are nine values and no others, so a
/// coordinate outside the grid cannot be written down.
#[derive(Clone, Copy, Debug, PartialEq, Eq, Hash, Structural)]
pub enum Ix {
    Ix1,
    Ix2,
    Ix3,
    Ix4,
    Ix5,
    Ix6,
    Ix7,
    Ix8,
    Ix9,
}

impl Ix {
    /// The position that the index stands for, counted from 0.
    pub open spec fn index(self) -> int {
        match self {
            Ix::Ix1 => 0,
            Ix::Ix2 => 1,
            Ix::Ix3 => 2,
            Ix::Ix4 => 3,
            Ix::Ix5 => 4,
            Ix::Ix6 => 5,
            Ix::Ix7 => 6,
            Ix::Ix8 => 7,
            Ix::Ix9 => 8,
        }
    }

    /// All nine indices in ascending order.
    pub fn all_indices() -> (r: [Ix; 9])
        ensures
            forall|k: int| 0 <= k < 9 ==> (#[trigger] r[k]).index() == k,
    {
        [Ix::Ix1, Ix::Ix2, Ix::Ix3, Ix::Ix4, Ix::Ix5, Ix::Ix6, Ix::Ix7, Ix::Ix8, Ix::Ix9]
    }

    /// The index after this one, and the first index after the last.
    pub fn succ(self) -> (r: Ix)
        ensures
            r.index() == (self.index() + 1) % 9,
    {
        match self {
            Ix::Ix1 => Ix::Ix2,
            Ix::Ix2 => Ix::Ix3,
            Ix::Ix3 => Ix::Ix4,
            Ix::Ix4 => Ix::Ix5,
            Ix::Ix5 => Ix::Ix6,
            Ix::Ix6 => Ix::Ix7,
            Ix::Ix7 => Ix::Ix8,
            Ix::Ix8 => Ix::Ix9,
            Ix::Ix9 => Ix::Ix1,
        }
    }
}

impl From<Ix> for usize {
    fn from(item: Ix) -> (r: usize) {
        match item {
            Ix::Ix1 => 0,
            Ix::Ix2 => 1,
            Ix::Ix3 => 2,
            Ix::Ix4 => 3,
            Ix::Ix5 => 4,
            Ix::Ix6 => 5,
            Ix::Ix7 => 6,
            Ix::Ix8 => 7,
            Ix::Ix9 => 8,
        }
    }
}

impl vstd::std_specs::convert::FromSpecImpl<Ix> for usize {
    open spec fn obeys_from_spec() -> bool {
        true
    }

    open spec fn from_spec(item: Ix) -> usize {
        item.index() as usize
    }
}

} // verus!
