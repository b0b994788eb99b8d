//! Value identity tags.

use vstd::prelude::*;

verus! {

/// An opaque, comparable, cheaply copyable identifier for one logical value
/// instance. Equality is identity equality: two tags are equal iff they carry
/// the same identity token, which is supplied exactly once, at the moment a
/// value is produced. A tag is immutable once minted and is never reused for
/// a different value.
///
/// The identity is an explicit `u64` token rather than anything derived from
/// a machine address, so the engine does not depend on object layout or
/// pointer stability; [`crate::ati::ATI`] mints tokens from a monotonically
/// increasing counter.
#[derive(Clone, Copy, PartialEq, Eq, Hash, Debug, Structural)]
pub struct Tag {
    id: u64,
}

impl View for Tag {
    type V = u64;

    closed spec fn view(&self) -> u64 {
        self.id
    }
}

impl Tag {
    /// Wraps an identity token as a tag.
    pub fn new(id: u64) -> (t: Tag)
        ensures
            t@ == id,
    {
        Tag { id }
    }

    /// The identity token this tag carries.
    pub fn id(&self) -> (r: u64)
        ensures
            r == self@,
    {
        self.id
    }
}

} // verus!
