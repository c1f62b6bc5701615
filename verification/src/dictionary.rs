//! This node's own index dictionaries, which bind each index of a space to
//! one id and each id to at most one index, and the marks of the indexes
//! still to be introduced to the neighbours.

use vstd::prelude::*;

use crate::mirror::MirrorIndexDictionary;
use crate::sphere::Space;

verus! {

/// No id is bound at two indexes.
pub open spec fn injective(m: Map<u16, [u8; 8]>) -> bool {
    forall|a: u16, b: u16|
        #![trigger m[a], m[b]]
        m.dom().contains(a) && m.dom().contains(b) && m[a] == m[b] ==> a == b
}

/// The index `id` is bound at in `m`, if any.
pub open spec fn bound_index(m: Map<u16, [u8; 8]>, id: [u8; 8]) -> Option<u16> {
    if exists|k: u16| m.dom().contains(k) && #[trigger] m[k] == id {
        Some(choose|k: u16| m.dom().contains(k) && #[trigger] m[k] == id)
    } else {
        None
    }
}

/// Binding `id` at `idx`: whatever `idx` held is replaced, and `id` leaves
/// the index it was bound at before.
pub open spec fn spec_bind(m: Map<u16, [u8; 8]>, idx: u16, id: [u8; 8]) -> Map<u16, [u8; 8]> {
    Map::new(
        |k: u16| k == idx || (m.dom().contains(k) && m[k] != id),
        |k: u16| if k == idx { id } else { m[k] },
    )
}

/// In an injective map the index an id is found at is the one
/// `bound_index` names.
pub proof fn lemma_bound_index_unique(m: Map<u16, [u8; 8]>, k: u16)
    requires
        injective(m),
        m.dom().contains(k),
    ensures
        bound_index(m, m[k]) == Some(k),
{
    let id = m[k];
    assert(m.dom().contains(k) && m[k] == id);
    let c = choose|c: u16| m.dom().contains(c) && #[trigger] m[c] == id;
    assert(m[c] == m[k]);
}

/// After binding `id` at `idx`, `id` is found at `idx` and nowhere else.
pub proof fn lemma_bound_after_bind(m: Map<u16, [u8; 8]>, idx: u16, id: [u8; 8])
    ensures
        bound_index(spec_bind(m, idx, id), id) == Some(idx),
{
    let b = spec_bind(m, idx, id);
    assert(b.dom().contains(idx) && b[idx] == id);
    let c = choose|c: u16| b.dom().contains(c) && #[trigger] b[c] == id;
}

/// Binding keeps a map injective.
pub proof fn lemma_bind_injective(m: Map<u16, [u8; 8]>, idx: u16, id: [u8; 8])
    requires
        injective(m),
    ensures
        injective(spec_bind(m, idx, id)),
{
    let b = spec_bind(m, idx, id);
    assert forall|x: u16, y: u16|
        #![trigger b[x], b[y]]
        b.dom().contains(x) && b.dom().contains(y) && b[x] == b[y] implies x == y by {
        if x != idx && y != idx {
            assert(m[x] == m[y]);
        }
    }
}

/// The dictionary of one index space: which id each index of this node
/// names, each id at one index at most. The forward direction is kept in
/// the ordered form a mirror uses; the reverse is a search of it.
pub struct IndexDictionary {
    forward: MirrorIndexDictionary,
}

impl IndexDictionary {
    /// The bindings by index.
    pub closed spec fn spec_forward(&self) -> Map<u16, [u8; 8]> {
        self.forward.spec_bindings()
    }

    pub closed spec fn wf(&self) -> bool {
        &&& self.forward.wf()
        &&& injective(self.forward.spec_bindings())
    }

    /// No id of a well-formed dictionary is bound at two indexes.
    pub proof fn lemma_injective(&self)
        requires
            self.wf(),
        ensures
            injective(self.spec_forward()),
    {
    }

    /// Nothing bound.
    pub fn new() -> (d: IndexDictionary)
        ensures
            d.wf(),
            d.spec_forward() == Map::<u16, [u8; 8]>::empty(),
    {
        IndexDictionary { forward: MirrorIndexDictionary::new() }
    }

    /// The id bound at `idx`, if any.
    pub fn id_of(&self, idx: u16) -> (r: Option<[u8; 8]>)
        requires
            self.wf(),
        ensures
            r == (if self.spec_forward().dom().contains(idx) {
                Some(self.spec_forward()[idx])
            } else {
                None
            }),
    {
        self.forward.id_of(idx)
    }

    /// The index `id` is bound at, if any.
    pub fn idx_of(&self, id: &[u8; 8]) -> (r: Option<u16>)
        requires
            self.wf(),
        ensures
            r == bound_index(self.spec_forward(), *id),
    {
        let r = self.forward.index_bound_to(id);
        proof {
            if let Some(i) = r {
                lemma_bound_index_unique(self.spec_forward(), i);
            }
        }
        r
    }

    /// Binds `id` at `idx`: what `idx` held is replaced, and `id` leaves
    /// any other index it was bound at.
    pub fn bind(&mut self, idx: u16, id: [u8; 8])
        requires
            old(self).wf(),
        ensures
            final(self).wf(),
            final(self).spec_forward() == spec_bind(old(self).spec_forward(), idx, id),
    {
        let ghost m = self.spec_forward();
        let prior = self.forward.index_bound_to(&id);
        match prior {
            Some(j) => {
                if j != idx {
                    self.forward.unbind(j);
                }
            },
            None => {},
        }
        self.forward.bind(idx, id);
        proof {
            let b = spec_bind(m, idx, id);
            if let Some(j) = prior {
                assert forall|k: u16| m.dom().contains(k) && k != j implies #[trigger] m[k] != id by {
                    if m[k] == id {
                        assert(m[k] == m[j]);
                    }
                }
            }
            assert(self.spec_forward() =~= b);
            lemma_bind_injective(m, idx, id);
        }
    }

    /// Removes the binding at `idx`; returns the id that was bound.
    pub fn unbind(&mut self, idx: u16) -> (r: Option<[u8; 8]>)
        requires
            old(self).wf(),
        ensures
            final(self).wf(),
            final(self).spec_forward() == old(self).spec_forward().remove(idx),
            r == (if old(self).spec_forward().dom().contains(idx) {
                Some(old(self).spec_forward()[idx])
            } else {
                None
            }),
    {
        let r = self.forward.unbind(idx);
        proof {
            let m = old(self).spec_forward();
            let n = self.spec_forward();
            assert forall|a: u16, b: u16|
                #![trigger n[a], n[b]]
                n.dom().contains(a) && n.dom().contains(b) && n[a] == n[b] implies a == b by {
                assert(m[a] == m[b]);
            }
        }
        r
    }

    /// The bound indexes, ascending.
    pub fn bound_indexes(&self) -> (r: Vec<u16>)
        requires
            self.wf(),
        ensures
            r@.to_set() == self.spec_forward().dom(),
            forall|i: int, j: int| 0 <= i < j < r@.len() ==> r@[i] < r@[j],
    {
        self.forward.bound_indexes()
    }
}

/// The indexes of each space marked for (re)introduction, each once.
pub struct ReintroductionTracker {
    users: Vec<u16>,
    nodes: Vec<u16>,
}

impl ReintroductionTracker {
    /// The marked indexes of a space.
    pub closed spec fn pending(&self, space: Space) -> Set<u16> {
        match space {
            Space::User => self.users@.to_set(),
            Space::Node => self.nodes@.to_set(),
        }
    }

    pub closed spec fn wf(&self) -> bool {
        &&& self.users@.no_duplicates()
        &&& self.nodes@.no_duplicates()
    }

    /// Nothing marked.
    pub fn new() -> (t: ReintroductionTracker)
        ensures
            t.wf(),
            t.pending(Space::User) == Set::<u16>::empty(),
            t.pending(Space::Node) == Set::<u16>::empty(),
    {
        let t = ReintroductionTracker { users: Vec::new(), nodes: Vec::new() };
        assert(t.users@.to_set() =~= Set::<u16>::empty());
        assert(t.nodes@.to_set() =~= Set::<u16>::empty());
        t
    }

    /// Marks `idx` of `space` to be introduced with the next update.
    pub fn mark(&mut self, space: Space, idx: u16)
        requires
            old(self).wf(),
        ensures
            final(self).wf(),
            final(self).pending(space) == old(self).pending(space).insert(idx),
            forall|other: Space| other != space ==> final(self).pending(other) == old(self).pending(other),
    {
        match space {
            Space::User => mark_in(&mut self.users, idx),
            Space::Node => mark_in(&mut self.nodes, idx),
        }
    }

    /// Drops the mark of `idx` of `space`, if it has one.
    pub fn clear_mark(&mut self, space: Space, idx: u16)
        requires
            old(self).wf(),
        ensures
            final(self).wf(),
            final(self).pending(space) == old(self).pending(space).remove(idx),
            forall|other: Space| other != space ==> final(self).pending(other) == old(self).pending(other),
    {
        match space {
            Space::User => clear_in(&mut self.users, idx),
            Space::Node => clear_in(&mut self.nodes, idx),
        }
    }

    /// Hands out the marked indexes of `space`, each once, and drops
    /// their marks.
    pub fn take_pending(&mut self, space: Space) -> (r: Vec<u16>)
        requires
            old(self).wf(),
        ensures
            final(self).wf(),
            r@.no_duplicates(),
            r@.to_set() == old(self).pending(space),
            final(self).pending(space) == Set::<u16>::empty(),
            forall|other: Space| other != space ==> final(self).pending(other) == old(self).pending(other),
    {
        let mut out: Vec<u16> = Vec::new();
        match space {
            Space::User => std::mem::swap(&mut out, &mut self.users),
            Space::Node => std::mem::swap(&mut out, &mut self.nodes),
        }
        proof {
            assert(Seq::<u16>::empty().to_set() =~= Set::<u16>::empty());
        }
        out
    }
}

/// Adds `idx` to a list of distinct indexes unless it is there.
fn mark_in(v: &mut Vec<u16>, idx: u16)
    requires
        old(v)@.no_duplicates(),
    ensures
        final(v)@.no_duplicates(),
        final(v)@.to_set() == old(v)@.to_set().insert(idx),
{
    let mut i = 0usize;
    while i < v.len()
        invariant
            i <= v@.len(),
            v@ == old(v)@,
            v@.no_duplicates(),
            forall|j: int| 0 <= j < i ==> v@[j] != idx,
        decreases v@.len() - i,
    {
        if v[i] == idx {
            proof {
                assert(v@.contains(idx));
                assert(v@.to_set() =~= v@.to_set().insert(idx));
            }
            return;
        }
        i += 1;
    }
    let ghost before = v@;
    v.push(idx);
    proof {
        before.lemma_push_to_set_commute(idx);
        assert(!before.contains(idx));
    }
}

/// Removes `idx` from a list of distinct indexes.
fn clear_in(v: &mut Vec<u16>, idx: u16)
    requires
        old(v)@.no_duplicates(),
    ensures
        final(v)@.no_duplicates(),
        final(v)@.to_set() == old(v)@.to_set().remove(idx),
{
    let mut i = 0usize;
    while i < v.len()
        invariant
            i <= v@.len(),
            v@ == old(v)@,
            v@.no_duplicates(),
            forall|j: int| 0 <= j < i ==> v@[j] != idx,
        decreases v@.len() - i,
    {
        if v[i] == idx {
            let ghost before = v@;
            v.remove(i);
            proof {
                assert forall|x: u16| #[trigger] v@.to_set().contains(x) == before.to_set().remove(idx).contains(x) by {
                    if v@.contains(x) {
                        let j = choose|j: int| 0 <= j < v@.len() && v@[j] == x;
                        let k: int = if j < i { j } else { j + 1 };
                        assert(before[k] == x);
                        assert(k != i);
                        assert(before[i as int] == idx);
                        assert(x != idx);
                        assert(before.contains(x));
                    }
                    if before.contains(x) && x != idx {
                        let j = choose|j: int| 0 <= j < before.len() && before[j] == x;
                        if j < i {
                            assert(v@[j] == x);
                        } else {
                            assert(j != i);
                            assert(v@[j - 1] == x);
                        }
                    }
                }
                assert(v@.to_set() =~= before.to_set().remove(idx));
                assert forall|a: int, b: int| 0 <= a < b < v@.len() implies v@[a] != v@[b] by {
                    let a0 = if a < i { a } else { a + 1 };
                    let b0 = if b < i { b } else { b + 1 };
                    assert(v@[a] == before[a0]);
                    assert(v@[b] == before[b0]);
                }
            }
            return;
        }
        i += 1;
    }
    proof {
        assert(!v@.contains(idx));
        assert(v@.to_set() =~= v@.to_set().remove(idx));
    }
}

} // verus!
