//! Bump arenas for per-run scratch allocation: an owned arena that can be
//! reset between chunks of work, and scratch buffers of repeated values.

use vstd::prelude::*;
use vstd::pervasive::cloned;
use bumpalo::Bump;

verus! {

#[verifier::external_type_specification]
#[verifier::external_body]
pub struct ExBump<const MIN_ALIGN: usize>(Bump<MIN_ALIGN>);

/// `bumpalo::Bump::new`: a new arena. Its state is opaque, so nothing is
/// claimed of it.
#[verifier::external_body]
fn bump_new() -> Bump {
    Bump::new()
}

/// `bumpalo::Bump::with_capacity`: a new arena whose first chunk holds
/// `cap` bytes. Its state is opaque, so nothing is claimed of it.
#[verifier::external_body]
fn bump_with_capacity(cap: usize) -> Bump {
    Bump::with_capacity(cap)
}

/// `bumpalo::Bump::reset`: frees everything allocated in the arena and keeps
/// its current chunk. The arena's state is opaque, so nothing is claimed of
/// what it becomes.
#[verifier::external_body]
fn bump_reset(b: &mut Bump) {
    b.reset()
}

/// `bumpalo::Bump::alloc_str`: copies the text into the arena and returns
/// the copy, which holds the same characters.
#[verifier::external_body]
fn bump_alloc_str<'a>(b: &'a Bump, s: &str) -> (r: &'a str)
    ensures
        r@ == s@,
{
    b.alloc_str(s)
}

/// A scratch vector of `len` values equal to `val`: clones of it, the last
/// one `val` itself, as `vec![val; len]` builds it. The arena is not used
/// yet; the signature keeps the call sites stable for arena-backed buffers.
pub fn alloc_vec<T: Clone>(arena: &Bump, len: usize, val: T) -> (v: Vec<T>)
    ensures
        v@.len() == len,
        forall|i: int| 0 <= i < len - 1 ==> cloned(val, #[trigger] v@[i]),
        len > 0 ==> v@[len - 1] == val,
{
    let mut v: Vec<T> = Vec::new();
    if len == 0 {
        return v;
    }
    let mut i: usize = 0;
    while i < len - 1
        invariant
            0 < len,
            i <= len - 1,
            v@.len() == i,
            forall|j: int| 0 <= j < i ==> cloned(val, #[trigger] v@[j]),
        decreases len - 1 - i,
    {
        let c = val.clone();
        v.push(c);
        i = i + 1;
    }
    v.push(val);
    v
}

/// An owned bump arena for per-batch or per-chunk allocation.
pub struct BumpArena {
    bump: Bump,
}

impl BumpArena {
    /// The arena's allocator.
    pub closed spec fn inner(&self) -> Bump {
        self.bump
    }

    /// A new arena with default capacity.
    pub fn new() -> BumpArena {
        BumpArena { bump: bump_new() }
    }

    /// A new arena whose first chunk holds `cap` bytes.
    pub fn with_capacity(cap: usize) -> BumpArena {
        BumpArena { bump: bump_with_capacity(cap) }
    }

    /// The arena's allocator, for direct allocation.
    pub fn bump(&self) -> (b: &Bump)
        ensures
            *b == self.inner(),
    {
        &self.bump
    }

    /// The arena's allocator, mutably.
    pub fn bump_mut(&mut self) -> (b: &mut Bump)
        ensures
            *b == old(self).inner(),
            final(self).inner() == *final(b),
    {
        &mut self.bump
    }

    /// Reset the arena: what was allocated in it is freed and its current
    /// chunk is kept for reuse.
    pub fn reset(&mut self) {
        bump_reset(&mut self.bump);
    }

    /// Copy `s` into the arena; the copy lives until the next reset.
    pub fn alloc_str<'a>(&'a self, s: &str) -> (r: &'a str)
        ensures
            r@ == s@,
    {
        bump_alloc_str(&self.bump, s)
    }
}

} // verus!
