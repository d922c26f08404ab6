use vstd::prelude::*;

verus! {

/// A measurement of memory allocated versus used, with the same meaning as
/// for a standard vector.
#[derive(Clone, Copy)]
pub struct MemoryUsage {
    /// The size of one element, where the collection has a single element
    /// type.
    pub size_of: Option<usize>,
    /// The number of elements held.
    pub len: usize,
    /// The allocated capacity.
    pub capacity: usize,
}

impl MemoryUsage {
    /// The combined usage of two measurements; the element size is kept only
    /// when both sides agree on it.
    pub fn merge(a: MemoryUsage, b: MemoryUsage) -> (r: MemoryUsage)
        requires
            a.len + b.len <= usize::MAX,
            a.capacity + b.capacity <= usize::MAX,
        ensures
            r.len == a.len + b.len,
            r.capacity == a.capacity + b.capacity,
            r.size_of == if a.size_of == b.size_of {
                a.size_of
            } else {
                None::<usize>
            },
    {
        let same = match (a.size_of, b.size_of) {
            (Some(x), Some(y)) => x == y,
            (None, None) => true,
            _ => false,
        };
        MemoryUsage {
            size_of: if same {
                a.size_of
            } else {
                None
            },
            len: a.len + b.len,
            capacity: a.capacity + b.capacity,
        }
    }
}

/// Relies on Vec::capacity: the allocated capacity, at least the length.
#[verifier::external_body]
pub(crate) fn vec_capacity<T>(v: &Vec<T>) -> (r: usize)
    ensures
        r >= v@.len(),
{
    v.capacity()
}

/// Relies on Vec::shrink_to_fit: drops excess capacity, keeping the
/// contents unchanged.
#[verifier::external_body]
pub(crate) fn vec_shrink<T>(v: &mut Vec<T>)
    ensures
        final(v)@ == old(v)@,
{
    v.shrink_to_fit();
}

/// Addition that stops at the top of `usize` instead of overflowing.
pub(crate) fn sat_add_usize(a: usize, b: usize) -> (r: usize)
    ensures
        r as int == if a + b <= usize::MAX { a + b } else { usize::MAX as int },
{
    if usize::MAX - a < b {
        usize::MAX
    } else {
        a + b
    }
}

/// A collection that can report its memory use and release unused
/// allocation on request; reclamation is explicit and caller-triggered,
/// never automatic.
pub trait MemoryUser {
    /// Measure the memory used by this collection.
    fn memory_usage(&self) -> MemoryUsage;

    /// Release unused allocation, keeping the contents.
    fn shrink(&mut self);
}

} // verus!
