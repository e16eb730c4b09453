use vstd::prelude::*;

verus! {

/// A fixed-length block of cells, each either empty or holding one value.
///
/// The block performs no occupancy bookkeeping of its own: a caller may only
/// write into a cell it knows to be empty and take from a cell it knows to be
/// occupied, which the contracts below demand.
pub struct Slots<T> {
    cells: Vec<Option<T>>,
}

impl<T> View for Slots<T> {
    type V = Seq<Option<T>>;

    closed spec fn view(&self) -> Seq<Option<T>> {
        self.cells@
    }
}

impl<T> Slots<T> {
    /// A block of `n` empty cells.
    pub fn new(n: usize) -> (r: Self)
        ensures
            r@.len() == n,
            forall|i: int| 0 <= i < n ==> r@[i] is None,
    {
        let mut cells: Vec<Option<T>> = Vec::with_capacity(n);
        let mut k: usize = 0;
        while k < n
            invariant
                k <= n,
                cells@.len() == k,
                forall|i: int| 0 <= i < k ==> cells@[i] is None,
            decreases n - k,
        {
            cells.push(None);
            k = k + 1;
        }
        Slots { cells }
    }

    /// The number of cells.
    pub fn len(&self) -> (r: usize)
        ensures
            r == self@.len(),
    {
        self.cells.len()
    }

    /// Stores `value` in the empty cell `index`.
    pub fn write(&mut self, index: usize, value: T)
        requires
            index < old(self)@.len(),
            old(self)@[index as int] is None,
        ensures
            final(self)@ == old(self)@.update(index as int, Some(value)),
    {
        self.cells.set(index, Some(value));
    }

    /// Moves the value out of the occupied cell `index`, leaving it empty.
    pub fn take(&mut self, index: usize) -> (r: T)
        requires
            index < old(self)@.len(),
            old(self)@[index as int] is Some,
        ensures
            old(self)@[index as int] == Some(r),
            final(self)@ == old(self)@.update(index as int, None),
    {
        let cell = self.cells[index].take();
        cell.unwrap()
    }
}

} // verus!
