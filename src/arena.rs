//! Handles: 32-bit indices into a dense, append-only store, with one value
//! reserved as null.

use vstd::prelude::*;

verus! {

/// A handle to a slot of an arena, or the null handle.
#[derive(Clone, Copy, Debug, PartialEq, Eq, Structural)]
pub struct Handle(u32);

/// The raw value reserved for the null handle.
pub const NULL_RAW: u32 = 0xffff_ffff;

impl Handle {
    /// The slot this handle designates; `NULL_RAW` for the null handle.
    pub closed spec fn spec_raw(self) -> int {
        self.0 as int
    }

    /// Whether this is the null handle.
    pub open spec fn spec_is_null(self) -> bool {
        self.spec_raw() == NULL_RAW
    }

    /// Two handles are equal exactly when their raw values are.
    pub broadcast proof fn lemma_raw(a: Handle, b: Handle)
        ensures
            0 <= #[trigger] a.spec_raw() <= NULL_RAW,
            (a == b) <==> (a.spec_raw() == #[trigger] b.spec_raw()),
    {
    }

    /// Returns the null handle.
    pub fn null() -> (r: Self)
        ensures
            r.spec_is_null(),
    {
        Self(NULL_RAW)
    }

    /// Returns true if this is the null handle.
    pub fn is_null(self) -> (r: bool)
        ensures
            r == self.spec_is_null(),
    {
        self.0 == NULL_RAW
    }

    /// Returns the index of this handle, which must not be null.
    pub fn index(self) -> (r: usize)
        requires
            !self.spec_is_null(),
        ensures
            r == self.spec_raw(),
    {
        self.0 as usize
    }

    /// Returns the handle of slot `index` of `memory`.
    pub fn from_index<T>(index: usize, memory: &[T]) -> (r: Self)
        requires
            index < memory@.len(),
            index < NULL_RAW,
        ensures
            r.spec_raw() == index,
            !r.spec_is_null(),
    {
        Self(index as u32)
    }
}

} // verus!
