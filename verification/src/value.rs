//! Dense interned identities used on the scoring hot path.

use vstd::prelude::*;

verus! {

/// Interned discrete value identifier.
#[derive(Clone, Copy, Debug, PartialEq, Eq, Structural, Hash, PartialOrd, Ord)]
pub struct SymbolId(pub u32);

/// Field identifier after interning a field name.
#[derive(Clone, Copy, Debug, PartialEq, Eq, Structural, Hash, PartialOrd, Ord)]
pub struct FieldId(pub u32);

impl FieldId {
    /// Convert to `usize` for array indexing.
    pub fn as_usize(self) -> (r: usize)
        ensures
            r as int == self.0 as int,
    {
        proof {
            assert(u32::MAX <= usize::MAX) by {
                assert(usize::BITS >= 32);
            }
        }
        self.0 as usize
    }
}

} // verus!
