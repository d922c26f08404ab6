use vstd::prelude::*;

verus! {

/// A unique reference to a stored element: the chunk key paired with the
/// item key. Built fluently starting from a nullary `Id` by `chunk` and
/// `item`.
#[derive(Clone, Copy, PartialEq, Eq, Structural)]
pub struct Id<C, I>(pub C, pub I);

impl<C, I> Id<C, I> {
    /// An `Id` from a chunk key and an item key.
    pub fn new(chunk_key: C, item_key: I) -> (r: Self)
        ensures
            r.0 == chunk_key,
            r.1 == item_key,
    {
        Id(chunk_key, item_key)
    }

    /// This `Id` with the chunk key replaced.
    pub fn chunk<CC>(self, new_chunk_key: CC) -> (r: Id<CC, I>)
        ensures
            r.0 == new_chunk_key,
            r.1 == self.1,
    {
        Id(new_chunk_key, self.1)
    }

    /// This `Id` with the item key replaced.
    pub fn item<II>(self, new_item_key: II) -> (r: Id<C, II>)
        ensures
            r.0 == self.0,
            r.1 == new_item_key,
    {
        Id(self.0, new_item_key)
    }
}

} // verus!
