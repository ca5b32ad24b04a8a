//! A mutable analogue of a copy-on-write pointer over bytes.

use vstd::prelude::*;

verus! {

/// A mutable version of a copy-on-write pointer.
///
/// Despite the name still containing the "Cow" (copy-on-write) part, this
/// never copies. It lets a structure either operate on a `&mut` borrow of
/// a caller's bytes or own the bytes, through one type.
#[derive(Debug)]
pub enum MutCow<'a> {
    /// Mutably borrowed data.
    Borrowed(&'a mut [u8]),
    /// Owned data.
    Owned(Vec<u8>),
}

impl<'a> MutCow<'a> {
    /// The bytes currently held, whichever variant holds them.
    pub open spec fn view(&self) -> Seq<u8> {
        match self {
            MutCow::Borrowed(b) => b@,
            MutCow::Owned(v) => v@,
        }
    }

    /// The number of bytes held.
    pub fn len(&self) -> (r: usize)
        ensures
            r == self@.len(),
    {
        match self {
            MutCow::Borrowed(b) => b.len(),
            MutCow::Owned(v) => v.len(),
        }
    }

    /// Whether no bytes are held.
    pub fn is_empty(&self) -> (r: bool)
        ensures
            r == (self@.len() == 0),
    {
        self.len() == 0
    }

    /// The byte at index `i`.
    pub fn get(&self, i: usize) -> (r: u8)
        requires
            i < self@.len(),
        ensures
            r == self@[i as int],
    {
        match self {
            MutCow::Borrowed(b) => b[i],
            MutCow::Owned(v) => v[i],
        }
    }

    /// Replaces the byte at index `i` with `v`.
    pub fn set(&mut self, i: usize, v: u8)
        requires
            i < old(self)@.len(),
        ensures
            final(self)@ == old(self)@.update(i as int, v),
    {
        match self {
            MutCow::Borrowed(b) => {
                b[i] = v;
            },
            MutCow::Owned(w) => {
                w[i] = v;
            },
        }
    }

    /// A read-only view of the bytes held.
    pub fn as_slice(&self) -> (r: &[u8])
        ensures
            r@ == self@,
    {
        match self {
            MutCow::Borrowed(b) => b,
            MutCow::Owned(v) => v.as_slice(),
        }
    }
}

impl<'a> From<&'a mut [u8]> for MutCow<'a> {
    /// Holds the borrow; no bytes move.
    fn from(reference: &'a mut [u8]) -> (r: Self)
        ensures
            r@ == old(reference)@,
            r is Borrowed,
    {
        MutCow::Borrowed(reference)
    }
}

impl<'a> vstd::std_specs::convert::FromSpecImpl<&'a mut [u8]> for MutCow<'a> {
    open spec fn obeys_from_spec() -> bool {
        false
    }

    open spec fn from_spec(reference: &'a mut [u8]) -> Self {
        MutCow::Borrowed(reference)
    }
}

impl<'a, const N: usize> From<[u8; N]> for MutCow<'a> {
    /// Copies the array into an owned vector.
    fn from(owned: [u8; N]) -> (r: Self)
        ensures
            r@ == owned@,
            r is Owned,
    {
        MutCow::Owned(vstd::slice::slice_to_vec(owned.as_slice()))
    }
}

impl<'a, const N: usize> vstd::std_specs::convert::FromSpecImpl<[u8; N]> for MutCow<'a> {
    open spec fn obeys_from_spec() -> bool {
        false
    }

    open spec fn from_spec(owned: [u8; N]) -> Self {
        choose|m: Self| m@ == owned@
    }
}

impl<'a> From<Vec<u8>> for MutCow<'a> {
    /// Takes ownership of the vector.
    fn from(owned: Vec<u8>) -> (r: Self) {
        MutCow::Owned(owned)
    }
}

impl<'a> vstd::std_specs::convert::FromSpecImpl<Vec<u8>> for MutCow<'a> {
    open spec fn obeys_from_spec() -> bool {
        true
    }

    open spec fn from_spec(owned: Vec<u8>) -> Self {
        MutCow::Owned(owned)
    }
}

} // verus!
