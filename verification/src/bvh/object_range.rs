use vstd::prelude::*;

verus! {

/// A run of consecutive object indices: `length` objects starting at `start`.
#[derive(Debug, Copy, Clone)]
pub struct ObjectRange {
    start: usize,
    length: usize,
}

impl View for ObjectRange {
    /// The first index and the number of indices.
    type V = (nat, nat);

    closed spec fn view(&self) -> (nat, nat) {
        (self.start as nat, self.length as nat)
    }
}

impl ObjectRange {
    /// One past the last index of the run.
    pub open spec fn end(self) -> nat {
        self@.0 + self@.1
    }

    /// Whether index `i` lies in the run.
    pub open spec fn contains(self, i: int) -> bool {
        self@.0 <= i < self.end()
    }

    /// The run as a half-open `Range` of indices.
    pub open spec fn index_range(self) -> std::ops::Range<usize> {
        std::ops::Range { start: self@.0 as usize, end: self.end() as usize }
    }

    /// Two runs with the same first index and the same length are the same
    /// run.
    pub proof fn lemma_view_determines(a: Self, b: Self)
        requires
            a@ == b@,
        ensures
            a == b,
    {
    }

    pub fn new(start: usize, length: usize) -> (r: Self)
        ensures
            r@ == (start as nat, length as nat),
    {
        Self { start, length }
    }

    /// The indices of the run as a half-open `Range`.
    pub fn indices(&self) -> (r: std::ops::Range<usize>)
        requires
            self.end() <= usize::MAX,
        ensures
            r.start == self@.0,
            r.end == self.end(),
            r == self.index_range(),
    {
        self.start..self.start + self.length
    }

    pub fn length(&self) -> (n: usize)
        ensures
            n == self@.1,
    {
        self.length
    }

    /// Splits the run in two: the first half holds `length / 2` indices, the
    /// second the rest, and the second starts where the first ends.
    pub fn split(&self) -> (halves: (Self, Self))
        requires
            self@.0 + self@.1 / 2 <= usize::MAX,
        ensures
            halves.0@ == (self@.0, self@.1 / 2),
            halves.1@ == (self@.0 + self@.1 / 2, (self@.1 - self@.1 / 2) as nat),
            halves.0@.1 + halves.1@.1 == self@.1,
            halves.1@.0 == halves.0.end(),
            halves.1.end() == self.end(),
            forall|i: int| #[trigger] self.contains(i) <==> (halves.0.contains(i) || halves.1.contains(i)),
            forall|i: int| !(#[trigger] halves.0.contains(i) && halves.1.contains(i)),
    {
        let l2: usize = self.length / 2;
        let left = Self::new(self.start, l2);
        let right = Self::new(self.start + l2, self.length - l2);
        (left, right)
    }
}

} // verus!
