use vstd::pervasive::unreached;
use vstd::prelude::*;

use crate::entry::Entry;
use crate::weakset::Iter;
use crate::weakset::WeakSet;

verus! {

/// The fault raised when a caller breaks the registration protocol by
/// inserting an entry that is already a member of a registry.
#[derive(Debug, PartialEq, Eq, Structural)]
pub enum Fault {
    AlreadyRegistered,
}

/// Pinned storage for registries and entries.
///
/// Both sides of the membership relation cache the other side's handle, so
/// neither object may move while it is referenced. The arena gives every
/// placed object a slot that stays at the same handle until the occupant is
/// destroyed; a destroyed occupant leaves a hole behind and its handle is
/// never handed out again.
pub struct Arena<T> {
    entries: Vec<Option<Entry<T>>>,
    sets: Vec<Option<WeakSet>>,
}

impl<T> Arena<T> {
    /// How many entry slots have ever been handed out.
    pub closed spec fn entry_count(self) -> nat {
        self.entries@.len()
    }

    /// How many registry slots have ever been handed out.
    pub closed spec fn set_count(self) -> nat {
        self.sets@.len()
    }

    /// Whether `e` is the handle of a live entry.
    pub closed spec fn entry_live(self, e: usize) -> bool {
        e < self.entries@.len() && self.entries@[e as int] is Some
    }

    /// The live entry at handle `e`.
    pub closed spec fn entry_at(self, e: usize) -> Entry<T> {
        self.entries@[e as int]->0
    }

    /// The wrapped value of the live entry at `e`.
    pub closed spec fn value_of(self, e: usize) -> T {
        self.entry_at(e).value
    }

    /// The registry the live entry at `e` belongs to, if any.
    pub closed spec fn membership_of(self, e: usize) -> Option<usize> {
        self.entry_at(e).membership
    }

    /// How many owning handles keep the live entry at `e` alive.
    pub closed spec fn owners_of(self, e: usize) -> usize {
        self.entry_at(e).owners
    }

    /// Whether `s` is the handle of a live registry.
    pub closed spec fn set_live(self, s: usize) -> bool {
        s < self.sets@.len() && self.sets@[s as int] is Some
    }

    /// The member list of the live registry at `s`.
    pub closed spec fn members_of(self, s: usize) -> Seq<usize> {
        (self.sets@[s as int]->0).members@
    }

    /// The member list of the live registry at `s`, as a set of handles.
    pub open spec fn member_set(self, s: usize) -> Set<usize> {
        self.members_of(s).to_set()
    }

    /// Whether the entry at `e` is registered in the registry at `s`.
    pub open spec fn is_member(self, s: usize, e: usize) -> bool {
        self.set_live(s) && self.members_of(s).contains(e)
    }

    /// The invariants that every operation preserves: each registry's member
    /// list points at live entries whose back-reference names that registry
    /// and holds no handle twice; each registered entry's back-reference
    /// names a live registry whose member list holds the entry; and every
    /// live entry is kept alive by at least one owning handle.
    pub closed spec fn wf(self) -> bool {
        &&& forall|s: usize, x: usize|
            self.set_live(s) && #[trigger] self.members_of(s).contains(x) ==> self.entry_live(x)
                && self.membership_of(x) == Some(s)
        &&& forall|x: usize|
            self.entry_live(x) && #[trigger] self.membership_of(x) is Some ==> {
                let s = self.membership_of(x)->0;
                self.set_live(s) && self.members_of(s).contains(x)
            }
        &&& forall|s: usize| self.set_live(s) ==> (#[trigger] self.members_of(s)).no_duplicates()
        &&& forall|x: usize| self.entry_live(x) ==> #[trigger] self.owners_of(x) >= 1
    }

    /// Whether the entry slot `x` looks the same in `self` as in `pre`.
    pub open spec fn entry_same_as(self, pre: Arena<T>, x: usize) -> bool {
        &&& self.entry_live(x) == pre.entry_live(x)
        &&& pre.entry_live(x) ==> {
            &&& self.value_of(x) == pre.value_of(x)
            &&& self.membership_of(x) == pre.membership_of(x)
            &&& self.owners_of(x) == pre.owners_of(x)
        }
    }

    /// Whether the registry slot `s` looks the same in `self` as in `pre`.
    pub open spec fn set_same_as(self, pre: Arena<T>, s: usize) -> bool {
        &&& self.set_live(s) == pre.set_live(s)
        &&& pre.set_live(s) ==> self.members_of(s) == pre.members_of(s)
    }

    /// Create an arena with no entries and no registries.
    pub fn new() -> (r: Arena<T>)
        ensures
            r.wf(),
            r.entry_count() == 0,
            r.set_count() == 0,
    {
        Arena { entries: Vec::new(), sets: Vec::new() }
    }

    /// Pin a freshly created entry into the arena and hand out its handle.
    /// The entry keeps its value, its empty membership and its single owning
    /// handle; everything already in the arena is untouched.
    pub fn place_entry(&mut self, entry: Entry<T>) -> (e: usize)
        requires
            old(self).wf(),
            entry.membership() is None,
            entry.owners() == 1,
        ensures
            final(self).wf(),
            e == old(self).entry_count(),
            final(self).entry_count() == old(self).entry_count() + 1,
            final(self).set_count() == old(self).set_count(),
            final(self).entry_live(e),
            final(self).value_of(e) == entry.value(),
            final(self).membership_of(e) is None,
            final(self).owners_of(e) == 1,
            forall|x: usize|
                #![trigger final(self).entry_same_as(*old(self), x)]
                #![trigger final(self).entry_live(x)]
                #![trigger final(self).membership_of(x)]
                x != e ==> final(self).entry_same_as(*old(self), x),
            forall|s: usize|
                #![trigger final(self).set_same_as(*old(self), s)]
                #![trigger final(self).set_live(s)]
                #![trigger final(self).members_of(s)]
                final(self).set_same_as(*old(self), s),
    {
        let e = self.entries.len();
        self.entries.push(Some(entry));
        proof {
            entry.lemma_fields();
            let pre = *old(self);
            let post = *self;
            assert(post.entries@[e as int] == Some(entry));
            assert forall|x: usize| x != e implies post.entry_same_as(pre, x) by {
                if x < e {
                    assert(post.entries@[x as int] == pre.entries@[x as int]);
                }
            }
            assert forall|s: usize, x: usize|
                post.set_live(s) && #[trigger] post.members_of(s).contains(x) implies post.entry_live(
                x,
            ) && post.membership_of(x) == Some(s) by {
                assert(pre.members_of(s).contains(x));
                assert(pre.entry_live(x));
                assert(post.entry_same_as(pre, x));
            }
            assert forall|x: usize|
                post.entry_live(x) && #[trigger] post.membership_of(x) is Some implies {
                let s = post.membership_of(x)->0;
                post.set_live(s) && post.members_of(s).contains(x)
            } by {
                assert(x != e);
                assert(post.entry_same_as(pre, x));
                assert(pre.membership_of(x) is Some);
            }
            assert forall|t: usize| post.set_live(t) implies (#[trigger] post.members_of(
                t,
            )).no_duplicates() by {
                assert(pre.members_of(t).no_duplicates());
            }
            assert forall|x: usize| post.entry_live(x) implies #[trigger] post.owners_of(x)
                >= 1 by {
                if x != e {
                    assert(post.entry_same_as(pre, x));
                    assert(pre.owners_of(x) >= 1);
                }
            }
            assert(post.wf());
        }
        e
    }

    /// Pin a freshly created, still empty registry into the arena and hand
    /// out its handle. Everything already in the arena is untouched.
    pub fn place_set(&mut self, set_value: WeakSet) -> (s: usize)
        requires
            old(self).wf(),
            set_value@.len() == 0,
        ensures
            final(self).wf(),
            s == old(self).set_count(),
            final(self).set_count() == old(self).set_count() + 1,
            final(self).entry_count() == old(self).entry_count(),
            final(self).set_live(s),
            final(self).members_of(s).len() == 0,
            forall|x: usize|
                #![trigger final(self).entry_same_as(*old(self), x)]
                #![trigger final(self).entry_live(x)]
                #![trigger final(self).membership_of(x)]
                final(self).entry_same_as(*old(self), x),
            forall|t: usize|
                #![trigger final(self).set_same_as(*old(self), t)]
                #![trigger final(self).set_live(t)]
                #![trigger final(self).members_of(t)]
                t != s ==> final(self).set_same_as(*old(self), t),
    {
        let s = self.sets.len();
        self.sets.push(Some(set_value));
        proof {
            crate::weakset::lemma_weakset_view(set_value);
            let pre = *old(self);
            let post = *self;
            assert(post.sets@[s as int] == Some(set_value));
            assert forall|t: usize| t != s implies post.set_same_as(pre, t) by {
                if t < s {
                    assert(post.sets@[t as int] == pre.sets@[t as int]);
                }
            }
            assert forall|t: usize, x: usize|
                post.set_live(t) && #[trigger] post.members_of(t).contains(x) implies post.entry_live(
                x,
            ) && post.membership_of(x) == Some(t) by {
                assert(t != s) by {
                    if t == s {
                        assert(post.members_of(s).len() == 0);
                    }
                }
                assert(pre.members_of(t).contains(x));
            }
            assert forall|x: usize|
                post.entry_live(x) && #[trigger] post.membership_of(x) is Some implies {
                let t = post.membership_of(x)->0;
                post.set_live(t) && post.members_of(t).contains(x)
            } by {
                assert(pre.membership_of(x) is Some);
                let t = pre.membership_of(x)->0;
                assert(pre.set_live(t) && pre.members_of(t).contains(x));
                assert(post.set_same_as(pre, t));
            }
            assert forall|t: usize| post.set_live(t) implies (#[trigger] post.members_of(
                t,
            )).no_duplicates() by {
                if t != s {
                    assert(pre.members_of(t).no_duplicates());
                }
            }
            assert forall|x: usize| post.entry_live(x) implies #[trigger] post.owners_of(x)
                >= 1 by {
                assert(pre.owners_of(x) >= 1);
            }
            assert(post.wf());
        }
        s
    }

    /// Register the entry at `e` into the registry at `s`: the registry
    /// gains `e` in its member list and the entry's back-reference is set to
    /// `s`. Inserting an entry that is already a member of a registry is an
    /// invariant-violation fault: the arena is left exactly as it was and
    /// the fault is reported instead.
    pub fn insert(&mut self, s: usize, e: usize) -> (r: Result<(), Fault>)
        requires
            old(self).wf(),
            old(self).set_live(s),
            old(self).entry_live(e),
        ensures
            final(self).wf(),
            final(self).entry_count() == old(self).entry_count(),
            final(self).set_count() == old(self).set_count(),
            old(self).membership_of(e) is Some ==> r == Err::<(), Fault>(Fault::AlreadyRegistered)
                && *final(self) == *old(self),
            old(self).membership_of(e) is None ==> {
                &&& r == Ok::<(), Fault>(())
                &&& final(self).entry_live(e)
                &&& final(self).membership_of(e) == Some(s)
                &&& final(self).value_of(e) == old(self).value_of(e)
                &&& final(self).owners_of(e) == old(self).owners_of(e)
                &&& final(self).members_of(s) == old(self).members_of(s).push(e)
                &&& final(self).member_set(s) == old(self).member_set(s).insert(e)
                &&& forall|x: usize|
                    #![trigger final(self).entry_same_as(*old(self), x)]
                    #![trigger final(self).entry_live(x)]
                    #![trigger final(self).membership_of(x)]
                    x != e ==> final(self).entry_same_as(*old(self), x)
                &&& forall|t: usize|
                    #![trigger final(self).set_same_as(*old(self), t)]
                    #![trigger final(self).set_live(t)]
                    #![trigger final(self).members_of(t)]
                    t != s ==> final(self).set_same_as(*old(self), t)
            },
    {
        let registered = match &self.entries[e] {
            Some(en) => en.membership.is_some(),
            None => false,
        };
        assert(registered == (old(self).membership_of(e) is Some));
        if registered {
            return Err(Fault::AlreadyRegistered);
        }
        // Link from the registry to the entry.
        match &mut self.sets[s] {
            Some(ws) => {
                ws.members.push(e);
            },
            None => {},
        }
        // Link from the entry back to the registry.
        match &mut self.entries[e] {
            Some(en) => {
                en.membership = Some(s);
            },
            None => {},
        }
        proof {
            broadcast use vstd::seq_lib::lemma_seq_contains_after_push;

            let pre = *old(self);
            let post = *self;
            assert(post.members_of(s) == pre.members_of(s).push(e));
            assert(post.entries@[e as int] is Some);
            assert(post.membership_of(e) == Some(s));
            assert(!pre.members_of(s).contains(e));
            assert forall|x: usize| x != e implies post.entry_same_as(pre, x) by {
                if x < pre.entries@.len() {
                    assert(post.entries@[x as int] == pre.entries@[x as int]);
                }
            }
            assert forall|t: usize| t != s implies post.set_same_as(pre, t) by {
                if t < pre.sets@.len() {
                    assert(post.sets@[t as int] == pre.sets@[t as int]);
                }
            }
            assert(post.member_set(s) =~= pre.member_set(s).insert(e));
            assert forall|t: usize, x: usize|
                post.set_live(t) && #[trigger] post.members_of(t).contains(x) implies post.entry_live(
                x,
            ) && post.membership_of(x) == Some(t) by {
                if t == s {
                    if x != e {
                        assert(pre.members_of(s).contains(x));
                        assert(post.entry_same_as(pre, x));
                    }
                } else {
                    assert(pre.members_of(t).contains(x));
                    assert(pre.membership_of(x) == Some(t));
                    assert(x != e);
                    assert(post.entry_same_as(pre, x));
                }
            }
            assert forall|x: usize|
                post.entry_live(x) && #[trigger] post.membership_of(x) is Some implies {
                let t = post.membership_of(x)->0;
                post.set_live(t) && post.members_of(t).contains(x)
            } by {
                if x == e {
                    assert(post.members_of(s).contains(e));
                } else {
                    assert(post.entry_same_as(pre, x));
                    assert(pre.membership_of(x) is Some);
                    let t = pre.membership_of(x)->0;
                    assert(pre.set_live(t) && pre.members_of(t).contains(x));
                    if t == s {
                        assert(post.members_of(s).contains(x));
                    } else {
                        assert(post.set_same_as(pre, t));
                    }
                }
            }
            assert forall|t: usize| post.set_live(t) implies (#[trigger] post.members_of(
                t,
            )).no_duplicates() by {
                if t == s {
                    let m = pre.members_of(s);
                    assert forall|i: int, j: int|
                        0 <= i < m.push(e).len() && 0 <= j < m.push(e).len() && i != j implies m.push(
                        e,
                    )[i] != m.push(e)[j] by {
                        if i < m.len() && j < m.len() {
                            assert(m[i] == m.push(e)[i] && m[j] == m.push(e)[j]);
                        } else if j == m.len() {
                            assert(m.contains(m[i]));
                        } else {
                            assert(m.contains(m[j]));
                        }
                    }
                } else {
                    assert(pre.members_of(t).no_duplicates());
                }
            }
            assert forall|x: usize| post.entry_live(x) implies #[trigger] post.owners_of(x)
                >= 1 by {
                if x != e {
                    assert(post.entry_same_as(pre, x));
                    assert(pre.owners_of(x) >= 1);
                } else {
                    assert(post.owners_of(e) == pre.owners_of(e));
                }
            }
            assert(post.wf());
        }
        Ok(())
    }

    /// Destroy the registry at `s`. Every member entry's back-reference is
    /// cleared before the registry's storage is released, so no entry is
    /// left pointing at a dead registry; the entries themselves stay alive
    /// and keep their values and their owning handles. Destroying a registry
    /// with no members releases its own storage and touches nothing else.
    pub fn destroy_set(&mut self, s: usize)
        requires
            old(self).wf(),
            old(self).set_live(s),
        ensures
            final(self).wf(),
            final(self).entry_count() == old(self).entry_count(),
            final(self).set_count() == old(self).set_count(),
            !final(self).set_live(s),
            forall|t: usize|
                #![trigger final(self).set_same_as(*old(self), t)]
                #![trigger final(self).set_live(t)]
                #![trigger final(self).members_of(t)]
                t != s ==> final(self).set_same_as(*old(self), t),
            forall|x: usize|
                #![trigger final(self).entry_live(x)]
                #![trigger final(self).membership_of(x)]
                old(self).is_member(s, x) ==> final(self).entry_live(x)
                    && final(self).membership_of(x) is None
                    && final(self).value_of(x) == old(self).value_of(x)
                    && final(self).owners_of(x) == old(self).owners_of(x),
            forall|x: usize|
                #![trigger final(self).entry_same_as(*old(self), x)]
                #![trigger final(self).entry_live(x)]
                #![trigger final(self).membership_of(x)]
                !old(self).is_member(s, x) ==> final(self).entry_same_as(*old(self), x),
            old(self).members_of(s).len() == 0 ==> forall|x: usize|
                #![trigger final(self).entry_same_as(*old(self), x)]
                #![trigger final(self).entry_live(x)]
                final(self).entry_same_as(*old(self), x),
    {
        let slot = &mut self.sets[s];
        let taken = slot.take();
        let ws = match taken {
            Some(w) => w,
            None => unreached(),
        };
        let ghost members = old(self).members_of(s);
        let n = ws.members.len();
        let mut i: usize = 0;
        while i < n
            invariant
                i <= n,
                n == members.len(),
                ws.members@ == members,
                old(self).wf(),
                old(self).set_live(s),
                members == old(self).members_of(s),
                self.sets@ == old(self).sets@.update(s as int, None::<WeakSet>),
                self.entries@.len() == old(self).entries@.len(),
                forall|j: int|
                    0 <= j < i ==> {
                        let x = #[trigger] members[j];
                        &&& x < self.entries@.len()
                        &&& self.entries@[x as int] is Some
                        &&& (self.entries@[x as int]->0).membership is None
                        &&& (self.entries@[x as int]->0).value == (old(self).entries@[x as int]
                            ->0).value
                        &&& (self.entries@[x as int]->0).owners == (old(self).entries@[x as int]
                            ->0).owners
                    },
                forall|y: int|
                    0 <= y < self.entries@.len() && !members.subrange(0, i as int).contains(
                        y as usize,
                    ) ==> #[trigger] self.entries@[y] == old(self).entries@[y],
            decreases n - i,
        {
            let x = ws.members[i];
            proof {
                assert(members[i as int] == x);
                assert(old(self).members_of(s).contains(x));
                assert(old(self).entry_live(x));
                assert(!members.subrange(0, i as int).contains(x)) by {
                    if members.subrange(0, i as int).contains(x) {
                        let j = choose|j: int|
                            0 <= j < i && members.subrange(0, i as int)[j] == x;
                        assert(members[j] == members[i as int]);
                    }
                }
                assert(self.entries@[x as int] == old(self).entries@[x as int]);
            }
            match &mut self.entries[x] {
                Some(en) => {
                    en.membership = None;
                },
                None => {},
            }
            proof {
                let ghost prefix = members.subrange(0, i as int);
                let ghost ext = members.subrange(0, i + 1);
                assert(ext[i as int] == x);
                assert forall|j: int| 0 <= j < i + 1 implies {
                    let y = #[trigger] members[j];
                    &&& y < self.entries@.len()
                    &&& self.entries@[y as int] is Some
                    &&& (self.entries@[y as int]->0).membership is None
                    &&& (self.entries@[y as int]->0).value == (old(self).entries@[y as int]
                        ->0).value
                    &&& (self.entries@[y as int]->0).owners == (old(self).entries@[y as int]
                        ->0).owners
                } by {
                    let y = members[j];
                    if j < i {
                        assert(y != x) by {
                            if y == x {
                                assert(members[j] == members[i as int]);
                            }
                        }
                    }
                }
                assert forall|y: int|
                    0 <= y < self.entries@.len() && !ext.contains(y as usize) implies #[trigger] self.entries@[y]
                    == old(self).entries@[y] by {
                    assert(y != x) by {
                        if y == x {
                            assert(ext[i as int] == y as usize);
                            assert(ext.contains(y as usize));
                        }
                    }
                    assert(!prefix.contains(y as usize)) by {
                        if prefix.contains(y as usize) {
                            let j = choose|j: int| 0 <= j < i && prefix[j] == y as usize;
                            assert(ext[j] == y as usize);
                            assert(ext.contains(y as usize));
                        }
                    }
                }
            }
            i = i + 1;
        }
        proof {
            let pre = *old(self);
            let post = *self;
            assert(members.subrange(0, n as int) == members);
            assert forall|t: usize| t != s implies post.set_same_as(pre, t) by {
                if t < pre.sets@.len() {
                    assert(post.sets@[t as int] == pre.sets@[t as int]);
                }
            }
            assert forall|x: usize| pre.is_member(s, x) implies post.entry_live(x)
                && post.membership_of(x) is None && post.value_of(x) == pre.value_of(x)
                && post.owners_of(x) == pre.owners_of(x) by {
                let j = choose|j: int| 0 <= j < members.len() && members[j] == x;
                assert(members[j] == x);
            }
            assert forall|x: usize| !pre.is_member(s, x) implies post.entry_same_as(pre, x) by {
                assert(!members.contains(x));
                if x < pre.entries@.len() {
                    assert(post.entries@[x as int] == pre.entries@[x as int]);
                }
            }
            assert forall|t: usize, x: usize|
                post.set_live(t) && #[trigger] post.members_of(t).contains(x) implies post.entry_live(
                x,
            ) && post.membership_of(x) == Some(t) by {
                assert(t != s);
                assert(pre.members_of(t).contains(x));
                assert(pre.membership_of(x) == Some(t));
                assert(!pre.members_of(s).contains(x));
                assert(post.entry_same_as(pre, x));
            }
            assert forall|x: usize|
                post.entry_live(x) && #[trigger] post.membership_of(x) is Some implies {
                let t = post.membership_of(x)->0;
                post.set_live(t) && post.members_of(t).contains(x)
            } by {
                assert(!pre.is_member(s, x)) by {
                    if pre.is_member(s, x) {
                        let j = choose|j: int| 0 <= j < members.len() && members[j] == x;
                        assert(members[j] == x);
                    }
                }
                assert(post.entry_same_as(pre, x));
                assert(pre.membership_of(x) is Some);
                let t = pre.membership_of(x)->0;
                assert(pre.set_live(t) && pre.members_of(t).contains(x));
                assert(t != s);
                assert(post.set_same_as(pre, t));
            }
            assert forall|t: usize| post.set_live(t) implies (#[trigger] post.members_of(
                t,
            )).no_duplicates() by {
                assert(t != s);
                assert(post.set_same_as(pre, t));
                assert(pre.members_of(t).no_duplicates());
            }
            assert forall|x: usize| post.entry_live(x) implies #[trigger] post.owners_of(x)
                >= 1 by {
                if pre.is_member(s, x) {
                    assert(pre.entry_live(x));
                    assert(pre.owners_of(x) >= 1);
                } else {
                    assert(post.entry_same_as(pre, x));
                    assert(pre.owners_of(x) >= 1);
                }
            }
            assert(post.wf());
        }
    }

    /// Add one more owning handle to the live entry at `e`, as when a
    /// shared handle to it is duplicated. Nothing else changes.
    pub fn share_entry(&mut self, e: usize)
        requires
            old(self).wf(),
            old(self).entry_live(e),
            old(self).owners_of(e) < usize::MAX,
        ensures
            final(self).wf(),
            final(self).entry_count() == old(self).entry_count(),
            final(self).set_count() == old(self).set_count(),
            final(self).entry_live(e),
            final(self).owners_of(e) == old(self).owners_of(e) + 1,
            final(self).value_of(e) == old(self).value_of(e),
            final(self).membership_of(e) == old(self).membership_of(e),
            forall|x: usize|
                #![trigger final(self).entry_same_as(*old(self), x)]
                #![trigger final(self).entry_live(x)]
                #![trigger final(self).membership_of(x)]
                x != e ==> final(self).entry_same_as(*old(self), x),
            forall|t: usize|
                #![trigger final(self).set_same_as(*old(self), t)]
                #![trigger final(self).set_live(t)]
                #![trigger final(self).members_of(t)]
                final(self).set_same_as(*old(self), t),
    {
        let owners = match &self.entries[e] {
            Some(en) => en.owners,
            None => 0,
        };
        match &mut self.entries[e] {
            Some(en) => {
                en.owners = owners + 1;
            },
            None => {},
        }
        proof {
            let pre = *old(self);
            let post = *self;
            assert forall|x: usize| x != e implies post.entry_same_as(pre, x) by {
                if x < pre.entries@.len() {
                    assert(post.entries@[x as int] == pre.entries@[x as int]);
                }
            }
            assert forall|t: usize, x: usize|
                post.set_live(t) && #[trigger] post.members_of(t).contains(x) implies post.entry_live(
                x,
            ) && post.membership_of(x) == Some(t) by {
                assert(pre.members_of(t).contains(x));
                if x != e {
                    assert(post.entry_same_as(pre, x));
                }
            }
            assert forall|x: usize|
                post.entry_live(x) && #[trigger] post.membership_of(x) is Some implies {
                let t = post.membership_of(x)->0;
                post.set_live(t) && post.members_of(t).contains(x)
            } by {
                if x != e {
                    assert(post.entry_same_as(pre, x));
                }
                assert(pre.membership_of(x) is Some);
            }
            assert forall|t: usize| post.set_live(t) implies (#[trigger] post.members_of(
                t,
            )).no_duplicates() by {
                assert(pre.members_of(t).no_duplicates());
            }
            assert forall|x: usize| post.entry_live(x) implies #[trigger] post.owners_of(x)
                >= 1 by {
                if x != e {
                    assert(post.entry_same_as(pre, x));
                    assert(pre.owners_of(x) >= 1);
                }
            }
            assert(post.wf());
        }
    }

    /// Release one owning handle of the live entry at `e`, as when one of
    /// its owners drops it. While other owners remain only the ownership
    /// count goes down; the registry link stays intact. Releasing the last
    /// handle destroys the entry: its handle is removed from its registry's
    /// member list (if it is a member) before the entry's storage is
    /// released, so no registry is left holding the handle of a dead entry.
    pub fn release_entry(&mut self, e: usize)
        requires
            old(self).wf(),
            old(self).entry_live(e),
        ensures
            final(self).wf(),
            final(self).entry_count() == old(self).entry_count(),
            final(self).set_count() == old(self).set_count(),
            old(self).owners_of(e) > 1 ==> {
                &&& final(self).entry_live(e)
                &&& final(self).owners_of(e) == old(self).owners_of(e) - 1
                &&& final(self).value_of(e) == old(self).value_of(e)
                &&& final(self).membership_of(e) == old(self).membership_of(e)
                &&& forall|x: usize|
                    #![trigger final(self).entry_same_as(*old(self), x)]
                    #![trigger final(self).entry_live(x)]
                    #![trigger final(self).membership_of(x)]
                    x != e ==> final(self).entry_same_as(*old(self), x)
                &&& forall|t: usize|
                    #![trigger final(self).set_same_as(*old(self), t)]
                    #![trigger final(self).set_live(t)]
                    #![trigger final(self).members_of(t)]
                    final(self).set_same_as(*old(self), t)
            },
            old(self).owners_of(e) == 1 ==> {
                &&& !final(self).entry_live(e)
                &&& forall|x: usize|
                    #![trigger final(self).entry_same_as(*old(self), x)]
                    #![trigger final(self).entry_live(x)]
                    #![trigger final(self).membership_of(x)]
                    x != e ==> final(self).entry_same_as(*old(self), x)
                &&& match old(self).membership_of(e) {
                    Some(s) => {
                        &&& final(self).set_live(s)
                        &&& final(self).member_set(s) == old(self).member_set(s).remove(e)
                        &&& forall|t: usize|
                            #![trigger final(self).set_same_as(*old(self), t)]
                            #![trigger final(self).set_live(t)]
                            #![trigger final(self).members_of(t)]
                            t != s ==> final(self).set_same_as(*old(self), t)
                    },
                    None => forall|t: usize|
                        #![trigger final(self).set_same_as(*old(self), t)]
                        #![trigger final(self).set_live(t)]
                        #![trigger final(self).members_of(t)]
                        final(self).set_same_as(*old(self), t),
                }
            },
    {
        let owners = match &self.entries[e] {
            Some(en) => en.owners,
            None => 0,
        };
        if owners > 1 {
            match &mut self.entries[e] {
                Some(en) => {
                    en.owners = owners - 1;
                },
                None => {},
            }
            proof {
                let pre = *old(self);
                let post = *self;
                assert forall|x: usize| x != e implies post.entry_same_as(pre, x) by {
                    if x < pre.entries@.len() {
                        assert(post.entries@[x as int] == pre.entries@[x as int]);
                    }
                }
                assert forall|t: usize, x: usize|
                    post.set_live(t) && #[trigger] post.members_of(t).contains(x) implies post.entry_live(
                    x,
                ) && post.membership_of(x) == Some(t) by {
                    assert(pre.members_of(t).contains(x));
                    if x != e {
                        assert(post.entry_same_as(pre, x));
                    }
                }
                assert forall|x: usize|
                    post.entry_live(x) && #[trigger] post.membership_of(x) is Some implies {
                    let t = post.membership_of(x)->0;
                    post.set_live(t) && post.members_of(t).contains(x)
                } by {
                    if x != e {
                        assert(post.entry_same_as(pre, x));
                    }
                    assert(pre.membership_of(x) is Some);
                }
                assert forall|t: usize| post.set_live(t) implies (#[trigger] post.members_of(
                    t,
                )).no_duplicates() by {
                    assert(pre.members_of(t).no_duplicates());
                }
                assert forall|x: usize| post.entry_live(x) implies #[trigger] post.owners_of(x)
                    >= 1 by {
                    if x != e {
                        assert(post.entry_same_as(pre, x));
                        assert(pre.owners_of(x) >= 1);
                    }
                }
                assert(post.wf());
            }
        } else {
            let m = match &self.entries[e] {
                Some(en) => en.membership,
                None => None,
            };
            if let Some(s) = m {
                proof {
                    assert(old(self).membership_of(e) == Some(s));
                    assert(old(self).set_live(s) && old(self).members_of(s).contains(e));
                }
                match &mut self.sets[s] {
                    Some(ws) => {
                        proof {
                            assert(ws.members@ == old(self).members_of(s));
                        }
                        let j = index_of(&ws.members, e);
                        ws.members.remove(j);
                    },
                    None => {},
                }
            }
            let dead_slot = &mut self.entries[e];
            let _dead = dead_slot.take();
            proof {
                let pre = *old(self);
                let post = *self;
                assert(!post.entry_live(e));
                assert forall|x: usize| x != e implies post.entry_same_as(pre, x) by {
                    if x < pre.entries@.len() {
                        assert(post.entries@[x as int] == pre.entries@[x as int]);
                    }
                }
                match pre.membership_of(e) {
                    Some(s) => {
                        let m0 = pre.members_of(s);
                        let j = choose|j: int| 0 <= j < m0.len() && m0[j] == e;
                        assert(m0.contains(e));
                        assert(post.members_of(s) == m0.remove(j));
                        lemma_remove_at(m0, j);
                        assert(post.member_set(s) =~= pre.member_set(s).remove(e));
                        assert forall|t: usize| t != s implies post.set_same_as(pre, t) by {
                            if t < pre.sets@.len() {
                                assert(post.sets@[t as int] == pre.sets@[t as int]);
                            }
                        }
                        assert forall|t: usize, x: usize|
                            post.set_live(t) && #[trigger] post.members_of(t).contains(
                            x,
                        ) implies post.entry_live(x) && post.membership_of(x) == Some(t) by {
                            if t == s {
                                assert(m0.contains(x) && x != e);
                            } else {
                                assert(pre.members_of(t).contains(x));
                            }
                            assert(pre.membership_of(x) == Some(t));
                            assert(x != e);
                            assert(post.entry_same_as(pre, x));
                        }
                        assert forall|x: usize|
                            post.entry_live(x) && #[trigger] post.membership_of(x) is Some implies {
                            let t = post.membership_of(x)->0;
                            post.set_live(t) && post.members_of(t).contains(x)
                        } by {
                            assert(x != e);
                            assert(post.entry_same_as(pre, x));
                            assert(pre.membership_of(x) is Some);
                            let t = pre.membership_of(x)->0;
                            assert(pre.set_live(t) && pre.members_of(t).contains(x));
                            if t == s {
                                assert(post.members_of(s).contains(x));
                            } else {
                                assert(post.set_same_as(pre, t));
                            }
                        }
                        assert forall|t: usize| post.set_live(t) implies (
                        #[trigger] post.members_of(t)).no_duplicates() by {
                            assert(pre.members_of(t).no_duplicates());
                            if t != s {
                                assert(post.set_same_as(pre, t));
                            }
                        }
                        assert forall|x: usize| post.entry_live(x) implies #[trigger] post.owners_of(
                            x,
                        ) >= 1 by {
                            assert(x != e);
                            assert(post.entry_same_as(pre, x));
                            assert(pre.owners_of(x) >= 1);
                        }
                        assert(post.wf());
                    },
                    None => {
                        assert forall|t: usize| post.set_same_as(pre, t) by {
                            if t < pre.sets@.len() {
                                assert(post.sets@[t as int] == pre.sets@[t as int]);
                            }
                        }
                        assert forall|t: usize, x: usize|
                            post.set_live(t) && #[trigger] post.members_of(t).contains(
                            x,
                        ) implies post.entry_live(x) && post.membership_of(x) == Some(t) by {
                            assert(pre.members_of(t).contains(x));
                            assert(pre.membership_of(x) == Some(t));
                            assert(x != e);
                            assert(post.entry_same_as(pre, x));
                        }
                        assert forall|x: usize|
                            post.entry_live(x) && #[trigger] post.membership_of(x) is Some implies {
                            let t = post.membership_of(x)->0;
                            post.set_live(t) && post.members_of(t).contains(x)
                        } by {
                            assert(x != e);
                            assert(post.entry_same_as(pre, x));
                            assert(pre.membership_of(x) is Some);
                            let t = pre.membership_of(x)->0;
                            assert(pre.set_live(t) && pre.members_of(t).contains(x));
                            assert(post.set_same_as(pre, t));
                        }
                        assert forall|t: usize| post.set_live(t) implies (
                        #[trigger] post.members_of(t)).no_duplicates() by {
                            assert(post.set_same_as(pre, t));
                            assert(pre.members_of(t).no_duplicates());
                        }
                        assert forall|x: usize| post.entry_live(x) implies #[trigger] post.owners_of(
                            x,
                        ) >= 1 by {
                            assert(x != e);
                            assert(post.entry_same_as(pre, x));
                            assert(pre.owners_of(x) >= 1);
                        }
                        assert(post.wf());
                    },
                }
            }
        }
    }

    /// Whether `e` currently names a live entry.
    pub fn is_entry_live(&self, e: usize) -> (r: bool)
        ensures
            r == self.entry_live(e),
    {
        if e < self.entries.len() {
            match &self.entries[e] {
                Some(_) => true,
                None => false,
            }
        } else {
            false
        }
    }

    /// Whether `s` currently names a live registry.
    pub fn is_set_live(&self, s: usize) -> (r: bool)
        ensures
            r == self.set_live(s),
    {
        if s < self.sets.len() {
            match &self.sets[s] {
                Some(_) => true,
                None => false,
            }
        } else {
            false
        }
    }

    /// Read access to the wrapped value of the live entry at `e`. The value
    /// is readable for as long as the entry is alive, member or not.
    pub fn value(&self, e: usize) -> (r: &T)
        requires
            self.entry_live(e),
        ensures
            *r == self.value_of(e),
    {
        match &self.entries[e] {
            Some(en) => &en.value,
            None => unreached(),
        }
    }

    /// The registry the live entry at `e` currently belongs to, if any.
    pub fn membership(&self, e: usize) -> (r: Option<usize>)
        requires
            self.entry_live(e),
        ensures
            r == self.membership_of(e),
    {
        match &self.entries[e] {
            Some(en) => en.membership,
            None => unreached(),
        }
    }

    /// Borrow the registry value pinned at `s`.
    pub fn set_ref(&self, s: usize) -> (r: &WeakSet)
        requires
            self.set_live(s),
        ensures
            r@ == self.members_of(s),
    {
        let r = match &self.sets[s] {
            Some(ws) => ws,
            None => unreached(),
        };
        proof {
            crate::weakset::lemma_weakset_view(*r);
        }
        r
    }

    /// The number of current members of the registry at `s`.
    pub fn member_count(&self, s: usize) -> (r: usize)
        requires
            self.set_live(s),
        ensures
            r == self.members_of(s).len(),
    {
        self.set_ref(s).len()
    }

    /// Whether the entry handle `e` currently stands in the member list of
    /// the registry at `s`.
    pub fn contains(&self, s: usize, e: usize) -> (r: bool)
        requires
            self.set_live(s),
        ensures
            r == self.is_member(s, e),
    {
        let ws = self.set_ref(s);
        proof {
            crate::weakset::lemma_weakset_view(*ws);
        }
        let n = ws.members.len();
        let mut j: usize = 0;
        while j < n
            invariant
                j <= n,
                n == ws.members@.len(),
                ws.members@ == self.members_of(s),
                self.set_live(s),
                forall|k: int| 0 <= k < j ==> ws.members@[k] != e,
            decreases n - j,
        {
            if ws.members[j] == e {
                return true;
            }
            j = j + 1;
        }
        proof {
            if self.members_of(s).contains(e) {
                let k = choose|k: int|
                    0 <= k < self.members_of(s).len() && self.members_of(s)[k] == e;
                assert(false);
            }
        }
        false
    }

    /// Start a read-only traversal over a snapshot of the current members
    /// of the registry at `s`. A registry with no members always yields an
    /// empty traversal.
    pub fn iterate(&self, s: usize) -> (r: Iter)
        requires
            self.set_live(s),
        ensures
            r.remaining() == self.members_of(s),
            self.members_of(s).len() == 0 ==> r.remaining().len() == 0,
    {
        self.set_ref(s).iter()
    }
}

/// Membership symmetry: an entry's handle stands in a registry's member
/// list exactly when the entry is alive and its back-reference names that
/// registry. This holds in every well-formed arena, hence after every
/// operation.
pub proof fn lemma_membership_symmetry<T>(a: Arena<T>, s: usize, e: usize)
    requires
        a.wf(),
    ensures
        a.is_member(s, e) <==> (a.entry_live(e) && a.membership_of(e) == Some(s)),
{
}

/// An entry belongs to at most one registry at a time: the same entry
/// handle never stands in the member lists of two different live
/// registries.
pub proof fn lemma_member_of_at_most_one<T>(a: Arena<T>, s1: usize, s2: usize, e: usize)
    requires
        a.wf(),
        a.is_member(s1, e),
        a.is_member(s2, e),
    ensures
        s1 == s2,
{
    assert(a.membership_of(e) == Some(s1));
    assert(a.membership_of(e) == Some(s2));
}

/// Position of the first occurrence of `x` in `v`.
fn index_of(v: &Vec<usize>, x: usize) -> (j: usize)
    requires
        v@.contains(x),
    ensures
        j < v@.len(),
        v@[j as int] == x,
{
    let n = v.len();
    let mut j: usize = 0;
    while j < n
        invariant
            j <= n,
            n == v@.len(),
            v@.contains(x),
            forall|k: int| 0 <= k < j ==> v@[k] != x,
        decreases n - j,
    {
        if v[j] == x {
            return j;
        }
        j = j + 1;
    }
    proof {
        let k = choose|k: int| 0 <= k < v@.len() && v@[k] == x;
        assert(false);
    }
    unreached()
}

/// Removing position `j` from a duplicate-free sequence removes exactly the
/// element standing there and keeps every other element.
proof fn lemma_remove_at(m: Seq<usize>, j: int)
    requires
        0 <= j < m.len(),
        m.no_duplicates(),
    ensures
        m.remove(j).no_duplicates(),
        forall|x: usize| #[trigger] m.remove(j).contains(x) <==> m.contains(x) && x != m[j],
        !m.remove(j).contains(m[j]),
{
    let r = m.remove(j);
    m.remove_ensures(j);
    assert forall|x: usize| #[trigger] r.contains(x) implies m.contains(x) && x != m[j] by {
        let k = choose|k: int| 0 <= k < r.len() && r[k] == x;
        if k < j {
            assert(m[k] == x);
        } else {
            assert(m[k + 1] == x);
        }
    }
    assert forall|x: usize| m.contains(x) && x != m[j] implies #[trigger] r.contains(x) by {
        let k = choose|k: int| 0 <= k < m.len() && m[k] == x;
        if k < j {
            assert(r[k] == x);
        } else {
            assert(k > j);
            assert(r[k - 1] == x);
        }
    }
    assert forall|a: int, b: int|
        0 <= a < r.len() && 0 <= b < r.len() && a != b implies r[a] != r[b] by {
        let a0: int = if a < j {
            a
        } else {
            a + 1
        };
        let b0: int = if b < j {
            b
        } else {
            b + 1
        };
        assert(r[a] == m[a0] && r[b] == m[b0]);
    }
}

} // verus!
