use vstd::prelude::*;

verus! {

/// A user value that can be a member of at most one registry at a time.
///
/// An entry is created unregistered and joins a registry only through an
/// explicit insertion. While it is a member, the `membership` field holds the
/// handle of the owning registry; the registry's member list holds the
/// entry's handle in return. Only the insertion and the two destruction
/// paths ever touch `membership`.
pub struct Entry<T> {
    pub(crate) value: T,
    pub(crate) membership: Option<usize>,
    pub(crate) owners: usize,
}

impl<T> Entry<T> {
    /// The wrapped user value.
    pub closed spec fn value(self) -> T {
        self.value
    }

    /// The handle of the registry this entry currently belongs to, if any.
    pub closed spec fn membership(self) -> Option<usize> {
        self.membership
    }

    /// How many owning handles keep this entry alive.
    pub closed spec fn owners(self) -> usize {
        self.owners
    }

    /// The public spec accessors read exactly the fields they are named
    /// after.
    pub(crate) proof fn lemma_fields(self)
        ensures
            self.value() == self.value,
            self.membership() == self.membership,
            self.owners() == self.owners,
    {
    }

    /// Create an unregistered entry with a single owning handle.
    pub fn new(value: T) -> (r: Entry<T>)
        ensures
            r.value() == value,
            r.membership() is None,
            r.owners() == 1,
    {
        Entry { value, membership: None, owners: 1 }
    }
}

} // verus!
