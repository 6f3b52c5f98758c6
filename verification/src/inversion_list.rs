//! The set of numbers that a message reserves for extensions.
use vstd::prelude::*;

verus! {

/// A set of `i32` numbers, held as half-open ranges `start..end`.
#[derive(Clone, Debug, PartialEq, Eq)]
pub struct InversionList {
    ranges: Vec<(i32, i32)>,
}

impl View for InversionList {
    type V = Seq<(i32, i32)>;

    open spec fn view(&self) -> Seq<(i32, i32)> {
        self.spec_ranges()
    }
}

impl InversionList {
    pub closed spec fn spec_ranges(&self) -> Seq<(i32, i32)> {
        self.ranges@
    }

    /// The list of the given ranges, in the order given.
    pub fn new(ranges: Vec<(i32, i32)>) -> (res: InversionList)
        ensures
            res@ == ranges@,
    {
        InversionList { ranges }
    }

    /// A list equal to this one.
    pub fn duplicate(&self) -> (res: InversionList)
        ensures
            res@ == self@,
    {
        let mut ranges: Vec<(i32, i32)> = Vec::new();
        let mut i: usize = 0;
        while i < self.ranges.len()
            invariant
                i <= self.ranges.len(),
                ranges@ == self.ranges@.take(i as int),
            decreases self.ranges.len() - i,
        {
            ranges.push(self.ranges[i]);
            i = i + 1;
            assert(ranges@ =~= self.ranges@.take(i as int));
        }
        assert(self.ranges@.take(i as int) =~= self.ranges@);
        InversionList { ranges }
    }
}

} // verus!
