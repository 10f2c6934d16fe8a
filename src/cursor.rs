//! A position in the queue: a chunk, named by its id, and an index inside it.

use vstd::prelude::*;

verus! {

/// `(chunk, index)`, ordered by chunk id first, then by index.
///
/// Chunk ids are unique within a queue, so two cursors are equal exactly when
/// they name the same chunk and the same index.
#[derive(Clone, Copy, PartialEq, Eq, Structural, Debug)]
pub struct Cursor {
    /// Id of the chunk the cursor points into.
    pub chunk_id: usize,
    /// Index of a slot inside that chunk.
    pub index: usize,
}

impl Cursor {
    /// `self` comes strictly before `other`.
    pub open spec fn spec_lt(self, other: Cursor) -> bool {
        self.chunk_id < other.chunk_id || (self.chunk_id == other.chunk_id && self.index
            < other.index)
    }

    /// `self` comes before `other`, or is equal to it.
    pub open spec fn spec_le(self, other: Cursor) -> bool {
        self.spec_lt(other) || self == other
    }

    /// The cursor order of `self` against `other`.
    pub open spec fn spec_cmp(self, other: Cursor) -> core::cmp::Ordering {
        if self.spec_lt(other) {
            core::cmp::Ordering::Less
        } else if self == other {
            core::cmp::Ordering::Equal
        } else {
            core::cmp::Ordering::Greater
        }
    }

    /// Whether `self` comes strictly before `other`.
    pub fn lt(&self, other: &Cursor) -> (r: bool)
        ensures
            r == self.spec_lt(*other),
    {
        if self.chunk_id < other.chunk_id {
            return true;
        }
        if self.chunk_id > other.chunk_id {
            return false;
        }
        self.index < other.index
    }

    /// Compares by chunk id, then by index.
    pub fn cmp(&self, other: &Cursor) -> (r: core::cmp::Ordering)
        ensures
            r == self.spec_cmp(*other),
    {
        if self.chunk_id < other.chunk_id {
            core::cmp::Ordering::Less
        } else if self.chunk_id > other.chunk_id {
            core::cmp::Ordering::Greater
        } else if self.index < other.index {
            core::cmp::Ordering::Less
        } else if self.index > other.index {
            core::cmp::Ordering::Greater
        } else {
            core::cmp::Ordering::Equal
        }
    }
}

/// The cursor order is a total order: irreflexive, transitive, and any two
/// distinct cursors are comparable.
pub proof fn lemma_cursor_total_order(a: Cursor, b: Cursor, c: Cursor)
    ensures
        !a.spec_lt(a),
        a.spec_lt(b) && b.spec_lt(c) ==> a.spec_lt(c),
        a != b ==> (a.spec_lt(b) || b.spec_lt(a)),
        !(a.spec_lt(b) && b.spec_lt(a)),
        a.spec_cmp(b) == core::cmp::Ordering::Less <==> b.spec_cmp(a)
            == core::cmp::Ordering::Greater,
{
}

} // verus!
