//! Scratch memory that lives for one call and is released in bulk.

use vstd::prelude::*;

verus! {

/// The arena of the `bumpalo` crate.
#[verifier::external_type_specification]
#[verifier::external_body]
pub struct ExBump<const MIN_ALIGN: usize>(bumpalo::Bump<MIN_ALIGN>);

/// `bumpalo::Bump::new`: a new, empty arena.
#[verifier::external_body]
pub(crate) fn new_arena() -> (arena: bumpalo::Bump<1>) {
    bumpalo::Bump::new()
}

/// `bumpalo::Bump::alloc_slice_fill_copy`: a slice of `len` elements in
/// the arena, each of them `value`.
#[verifier::external_body]
pub(crate) fn scratch_slice<'a>(arena: &'a bumpalo::Bump<1>, len: usize, value: i32) -> (slice:
    &'a mut [i32])
    ensures
        slice@ == Seq::new(len as nat, |i: int| value),
{
    arena.alloc_slice_fill_copy(len, value)
}

} // verus!
