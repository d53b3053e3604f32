//! Identifiers of union-find elements.

use vstd::prelude::*;

verus! {

/// A key naming one element of a union-find.
///
/// Identifiers are handed out densely, starting at zero. An identifier stays
/// valid for the lifetime of its element, although the canonical
/// representative of that element may change.
#[derive(Clone, Copy, Debug, PartialEq, Eq, Structural, PartialOrd, Ord, Hash)]
pub struct Id(u32);

impl View for Id {
    type V = int;

    /// The position of the element that this identifier names.
    closed spec fn view(&self) -> int {
        self.0 as int
    }
}

impl Id {
    /// The identifier of position `i`.
    pub closed spec fn at(i: int) -> Id {
        Id(i as u32)
    }

    /// A position is a 32-bit number, and no two identifiers share one.
    pub broadcast proof fn lemma_view(self)
        ensures
            0 <= #[trigger] self@ <= u32::MAX,
            Id::at(self@) == self,
    {
    }

    /// Every 32-bit number is the position of an identifier.
    pub broadcast proof fn lemma_at(i: int)
        requires
            0 <= i <= u32::MAX,
        ensures
            (#[trigger] Id::at(i))@ == i,
    {
    }
}

/// The positions that a sequence of identifiers names, in order.
pub open spec fn positions(ids: Seq<Id>) -> Seq<int> {
    Seq::new(ids.len(), |i: int| ids[i]@)
}

impl From<usize> for Id {
    fn from(n: usize) -> (id: Id) {
        Id(#[verifier::truncate] (n as u32))
    }
}

impl vstd::std_specs::convert::FromSpecImpl<usize> for Id {
    open spec fn obeys_from_spec() -> bool {
        true
    }

    open spec fn from_spec(n: usize) -> Id {
        Id::at((n as u32) as int)
    }
}

impl From<Id> for usize {
    fn from(id: Id) -> (n: usize) {
        id.0 as usize
    }
}

impl vstd::std_specs::convert::FromSpecImpl<Id> for usize {
    open spec fn obeys_from_spec() -> bool {
        true
    }

    open spec fn from_spec(id: Id) -> usize {
        id@ as usize
    }
}

} // verus!
