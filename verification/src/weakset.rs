use vstd::prelude::*;

verus! {

/// The membership side of one registry: the handles of the entries that are
/// currently registered in it, each at most once, in unspecified order.
pub struct WeakSet {
    pub(crate) members: Vec<usize>,
}

impl View for WeakSet {
    type V = Seq<usize>;

    closed spec fn view(&self) -> Seq<usize> {
        self.members@
    }
}

/// The view of a registry value is exactly its member list.
pub(crate) proof fn lemma_weakset_view(ws: WeakSet)
    ensures
        ws@ == ws.members@,
{
}

impl WeakSet {
    /// Create an empty registry value, ready to be pinned into an arena.
    pub fn new() -> (r: WeakSet)
        ensures
            r@ == Seq::<usize>::empty(),
    {
        WeakSet { members: Vec::new() }
    }

    /// The number of current members.
    pub fn len(&self) -> (r: usize)
        ensures
            r == self@.len(),
    {
        self.members.len()
    }

    /// Start a read-only traversal over a snapshot of the current members.
    pub fn iter(&self) -> (r: Iter)
        ensures
            r.remaining() == self@,
    {
        let n = self.members.len();
        let mut ids: Vec<usize> = Vec::new();
        let mut i: usize = 0;
        while i < n
            invariant
                i <= n,
                n == self.members@.len(),
                ids@ == self.members@.subrange(0, i as int),
            decreases n - i,
        {
            ids.push(self.members[i]);
            proof {
                assert(ids@ =~= self.members@.subrange(0, i + 1 as int));
            }
            i = i + 1;
        }
        proof {
            assert(ids@ =~= self.members@);
        }
        Iter { ids, pos: 0 }
    }
}

/// A lazy, single-pass traversal over a snapshot of a registry's members.
///
/// The traversal yields every member handle that was present when it was
/// produced, exactly once, and is exhausted afterwards. It stays meaningful
/// only as long as no membership change happens while it is walked.
pub struct Iter {
    pub(crate) ids: Vec<usize>,
    pub(crate) pos: usize,
}

impl Iter {
    /// The member handles this traversal has not yielded yet.
    pub closed spec fn remaining(self) -> Seq<usize> {
        if self.pos <= self.ids@.len() {
            self.ids@.subrange(self.pos as int, self.ids@.len() as int)
        } else {
            Seq::empty()
        }
    }

    /// Yield the next member handle, or `None` once every member was seen.
    pub fn next(&mut self) -> (r: Option<usize>)
        ensures
            old(self).remaining().len() == 0 ==> r is None && final(self).remaining()
                == old(self).remaining(),
            old(self).remaining().len() > 0 ==> r == Some(old(self).remaining()[0])
                && final(self).remaining() == old(self).remaining().drop_first(),
    {
        if self.pos < self.ids.len() {
            let r = self.ids[self.pos];
            self.pos = self.pos + 1;
            proof {
                assert(self.remaining() =~= old(self).remaining().drop_first());
            }
            Some(r)
        } else {
            None
        }
    }

    /// Exact lower and upper bounds on how many handles are still to come.
    pub fn size_hint(&self) -> (r: (usize, Option<usize>))
        ensures
            r.0 == self.remaining().len(),
            r.1 == Some(r.0),
    {
        let n = if self.pos <= self.ids.len() {
            self.ids.len() - self.pos
        } else {
            0
        };
        (n, Some(n))
    }
}

} // verus!
