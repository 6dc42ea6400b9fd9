//! Arena-backed tree.
//!
//! The arena owns all nodes and hands out stable integer handles. Every
//! non-root node has at most one parent; sibling links are kept mutually
//! consistent; a detached node has no parent and no sibling links. The ghost
//! state records, for every node, the exact sequence of its children and a
//! depth witness that rules out cycles.

use vstd::prelude::*;

verus! {

/// A stable, opaque handle to a node's slot in the arena.
///
/// Comparing two handles for equality is the system's definition of node
/// identity: it is independent of payload equality.
#[derive(Clone, Copy, Debug, PartialEq, Eq, Structural)]
pub struct NodeId {
    index: usize,
}

impl NodeId {
    /// The arena slot this handle refers to.
    pub closed spec fn view(self) -> int {
        self.index as int
    }
}

struct Slot<T> {
    value: T,
    parent: Option<usize>,
    prev: Option<usize>,
    next: Option<usize>,
    first: Option<usize>,
    last: Option<usize>,
}

/// Maps an optional slot index to its mathematical counterpart.
pub open spec fn opt_index(o: Option<usize>) -> Option<int> {
    match o {
        Some(u) => Some(u as int),
        None => None,
    }
}

/// An arena of nodes linked into a tree.
///
/// Slot 0 always holds the root. Nodes are never removed; a node detached
/// from its parent stays in the arena as an orphan and can be reattached.
pub struct Tree<T> {
    slots: Vec<Slot<T>>,
    kids: Ghost<Map<int, Seq<int>>>,
    depth: Ghost<Map<int, int>>,
    height: Ghost<int>,
}

impl<T> Tree<T> {
    /// Number of nodes the arena holds.
    pub closed spec fn len(self) -> int {
        self.slots@.len() as int
    }

    /// True iff `i` is the index of a node in this arena.
    pub open spec fn ok(self, i: int) -> bool {
        0 <= i < self.len()
    }

    /// The payload stored at slot `i`.
    pub closed spec fn value_at(self, i: int) -> T {
        self.slots@[i].value
    }

    /// The parent link of slot `i`.
    pub closed spec fn parent_of(self, i: int) -> Option<int> {
        opt_index(self.slots@[i].parent)
    }

    /// The previous-sibling link of slot `i`.
    pub closed spec fn prev_of(self, i: int) -> Option<int> {
        opt_index(self.slots@[i].prev)
    }

    /// The next-sibling link of slot `i`.
    pub closed spec fn next_of(self, i: int) -> Option<int> {
        opt_index(self.slots@[i].next)
    }

    /// The first-child link of slot `i`.
    pub closed spec fn first_of(self, i: int) -> Option<int> {
        opt_index(self.slots@[i].first)
    }

    /// The last-child link of slot `i`.
    pub closed spec fn last_of(self, i: int) -> Option<int> {
        opt_index(self.slots@[i].last)
    }

    /// The sequence of children of slot `i`, in sibling order.
    pub closed spec fn kids_of(self, i: int) -> Seq<int> {
        self.kids@[i]
    }

    /// The depth witness of slot `i` (root of each component at its own level).
    pub closed spec fn depth_of(self, i: int) -> int {
        self.depth@[i]
    }

    /// Ghost upper bound on all depth witnesses.
    pub closed spec fn height_bound(self) -> int {
        self.height@
    }

    /// Link consistency for the child list of one node: the first/last
    /// pointers are the list's endpoints, and the k-th child's sibling links
    /// point at the (k-1)-th and (k+1)-th children.
    pub open spec fn wf_list(self, p: int) -> bool {
        &&& (forall|k: int|
            0 <= k < self.kids_of(p).len() ==> {
                let c = #[trigger] self.kids_of(p)[k];
                &&& self.ok(c)
                &&& self.parent_of(c) == Some(p)
                &&& self.depth_of(c) == self.depth_of(p) + 1
                &&& self.prev_of(c) == (if k == 0 {
                    None::<int>
                } else {
                    Some(self.kids_of(p)[k - 1])
                })
                &&& self.next_of(c) == (if k == self.kids_of(p).len() - 1 {
                    None::<int>
                } else {
                    Some(self.kids_of(p)[k + 1])
                })
            })
        &&& self.first_of(p) == (if self.kids_of(p).len() == 0 {
            None::<int>
        } else {
            Some(self.kids_of(p)[0])
        })
        &&& self.last_of(p) == (if self.kids_of(p).len() == 0 {
            None::<int>
        } else {
            Some(self.kids_of(p)[self.kids_of(p).len() - 1])
        })
    }

    /// Well-formedness: the executable links, the ghost child lists and the
    /// ghost depth witness all agree, and slot 0 is a root.
    pub closed spec fn wf(self) -> bool {
        &&& self.len() >= 1
        &&& self.parent_of(0) == None::<int>
        &&& 0 <= self.height_bound()
        &&& (forall|i: int| self.ok(i) ==> 0 <= #[trigger] self.depth_of(i) <= self.height_bound())
        &&& (forall|i: int| self.ok(i) ==> #[trigger] self.wf_list(i))
        &&& (forall|p: int, k1: int, k2: int|
            self.ok(p) && 0 <= k1 < self.kids_of(p).len() && 0 <= k2 < self.kids_of(p).len()
                && #[trigger] self.kids_of(p)[k1] == #[trigger] self.kids_of(p)[k2] ==> k1 == k2)
        &&& (forall|c: int|
            self.ok(c) && (#[trigger] self.parent_of(c)).is_some() ==> {
                let p = self.parent_of(c)->0;
                &&& self.ok(p)
                &&& self.kids_of(p).contains(c)
            })
        &&& (forall|c: int|
            self.ok(c) && #[trigger] self.parent_of(c) == None::<int> ==> self.prev_of(c)
                == None::<int> && self.next_of(c) == None::<int>)
    }

    /// Creates an arena holding only a root node with the given payload.
    pub fn new(root_value: T) -> (t: Tree<T>)
        ensures
            t.wf(),
            t.len() == 1,
            t.value_at(0) == root_value,
            t.kids_of(0) =~= Seq::<int>::empty(),
            t.parent_of(0) == None::<int>,
    {
        let slot = Slot {
            value: root_value,
            parent: None,
            prev: None,
            next: None,
            first: None,
            last: None,
        };
        let mut slots: Vec<Slot<T>> = Vec::new();
        slots.push(slot);
        let t = Tree {
            slots,
            kids: Ghost(Map::new(|i: int| true, |i: int| Seq::<int>::empty())),
            depth: Ghost(Map::new(|i: int| true, |i: int| 0int)),
            height: Ghost(0int),
        };
        proof {
            assert forall|i: int| t.ok(i) implies #[trigger] t.wf_list(i) by {
                assert(t.kids_of(i) =~= Seq::<int>::empty());
            }
        }
        t
    }

    /// The handle of the root node.
    pub fn root(&self) -> (id: NodeId)
        ensures
            id@ == 0,
    {
        NodeId { index: 0 }
    }

    /// Allocates a new orphan node: no parent, no siblings, no children.
    pub fn orphan(&mut self, value: T) -> (id: NodeId)
        requires
            old(self).wf(),
        ensures
            final(self).wf(),
            final(self).len() == old(self).len() + 1,
            id@ == old(self).len(),
            final(self).ok(id@),
            !old(self).ok(id@),
            final(self).value_at(id@) == value,
            final(self).parent_of(id@) == None::<int>,
            final(self).kids_of(id@) =~= Seq::<int>::empty(),
            forall|i: int|
                old(self).ok(i) ==> #[trigger] final(self).value_at(i) == old(self).value_at(i),
            forall|i: int|
                old(self).ok(i) ==> #[trigger] final(self).kids_of(i) == old(self).kids_of(i),
            forall|i: int|
                old(self).ok(i) ==> #[trigger] final(self).parent_of(i) == old(self).parent_of(i),
            forall|i: int|
                old(self).ok(i) ==> #[trigger] final(self).prev_of(i) == old(self).prev_of(i),
            forall|i: int|
                old(self).ok(i) ==> #[trigger] final(self).next_of(i) == old(self).next_of(i),
            forall|i: int|
                old(self).ok(i) ==> #[trigger] final(self).first_of(i) == old(self).first_of(i),
            forall|i: int|
                old(self).ok(i) ==> #[trigger] final(self).last_of(i) == old(self).last_of(i),
            forall|i: int|
                old(self).ok(i) ==> #[trigger] final(self).depth_of(i) == old(self).depth_of(i),
            final(self).height_bound() == old(self).height_bound(),
            forall|j: int|
                old(self).ok(j) ==> #[trigger] final(self).ancestors(j) == old(self).ancestors(j),
            forall|j: int|
                old(self).ok(j) ==> !(#[trigger] final(self).ancestors(j)).contains(id@),
            final(self).ancestors(id@) == seq![id@],
    {
        let index = self.slots.len();
        let slot = Slot { value, parent: None, prev: None, next: None, first: None, last: None };
        self.slots.push(slot);
        proof {
            self.kids@ = self.kids@.insert(index as int, Seq::<int>::empty());
            self.depth@ = self.depth@.insert(index as int, 0int);
        }
        let ghost t = *self;
        proof {
            assert(t.kids_of(index as int) =~= Seq::<int>::empty());
            assert forall|i: int| t.ok(i) implies #[trigger] t.wf_list(i) by {
                if i < index {
                    assert(old(self).wf_list(i));
                    assert(t.kids_of(i) == old(self).kids_of(i));
                    assert forall|k: int| 0 <= k < t.kids_of(i).len() implies {
                        let c = #[trigger] t.kids_of(i)[k];
                        &&& t.ok(c)
                        &&& t.parent_of(c) == Some(i)
                        &&& t.depth_of(c) == t.depth_of(i) + 1
                        &&& t.prev_of(c) == (if k == 0 {
                            None::<int>
                        } else {
                            Some(t.kids_of(i)[k - 1])
                        })
                        &&& t.next_of(c) == (if k == t.kids_of(i).len() - 1 {
                            None::<int>
                        } else {
                            Some(t.kids_of(i)[k + 1])
                        })
                    } by {
                        let c = t.kids_of(i)[k];
                        assert(old(self).kids_of(i)[k] == c);
                        assert(old(self).ok(c));
                    }
                }
            }
            assert forall|c: int|
                t.ok(c) && (#[trigger] t.parent_of(c)).is_some() implies {
                    let p = t.parent_of(c)->0;
                    &&& t.ok(p)
                    &&& t.kids_of(p).contains(c)
                } by {
                assert(c < index);
                assert(old(self).parent_of(c).is_some());
                let p = old(self).parent_of(c)->0;
                assert(old(self).kids_of(p).contains(c));
                assert(t.kids_of(p) == old(self).kids_of(p));
            }
            assert forall|i: int| t.ok(i) implies 0 <= #[trigger] t.depth_of(i)
                <= t.height_bound() by {
                if i < index {
                    assert(t.depth_of(i) == old(self).depth_of(i));
                } else {
                    assert(t.depth_of(i) == 0);
                }
            }
            assert forall|p: int, k1: int, k2: int|
                t.ok(p) && 0 <= k1 < t.kids_of(p).len() && 0 <= k2 < t.kids_of(p).len()
                    && #[trigger] t.kids_of(p)[k1] == #[trigger] t.kids_of(p)[k2] implies k1
                == k2 by {
                if p < index {
                    assert(t.kids_of(p) == old(self).kids_of(p));
                    assert(old(self).kids_of(p)[k1] == old(self).kids_of(p)[k2]);
                }
            }
            assert forall|c: int|
                t.ok(c) && #[trigger] t.parent_of(c) == None::<int> implies t.prev_of(c)
                == None::<int> && t.next_of(c) == None::<int> by {
                if c < index {
                    assert(old(self).parent_of(c) == None::<int>);
                    assert(old(self).prev_of(c) == None::<int>);
                }
            }
            assert forall|j: int| old(self).ok(j) implies #[trigger] t.ancestors(j) == old(
                self,
            ).ancestors(j) by {
                lemma_ancestors_same(*old(self), t, j, Set::empty());
            }
            assert forall|j: int| old(self).ok(j) implies !(#[trigger] t.ancestors(j)).contains(
                index as int,
            ) by {
                lemma_ancestors_members(*old(self), j);
            }
            lemma_ancestors_unfold(t, index as int);
        }
        NodeId { index }
    }

    /// Returns true iff the two handles refer to the same storage slot.
    pub fn same(&self, x: NodeId, y: NodeId) -> (r: bool)
        ensures
            r == (x@ == y@),
    {
        x.index == y.index
    }

    /// Borrows the payload stored at `id`.
    pub fn get(&self, id: NodeId) -> (r: &T)
        requires
            self.ok(id@),
        ensures
            *r == self.value_at(id@),
    {
        &self.slots[id.index].value
    }

    /// Replaces the payload stored at `id`, leaving all links untouched.
    pub fn set_value(&mut self, id: NodeId, value: T)
        requires
            old(self).wf(),
            old(self).ok(id@),
        ensures
            final(self).wf(),
            final(self).len() == old(self).len(),
            final(self).value_at(id@) == value,
            forall|i: int|
                final(self).ok(i) && i != id@ ==> #[trigger] final(self).value_at(i) == old(
                    self,
                ).value_at(i),
            forall|i: int|
                final(self).ok(i) ==> #[trigger] final(self).kids_of(i) == old(self).kids_of(i),
            forall|i: int|
                final(self).ok(i) ==> #[trigger] final(self).parent_of(i) == old(self).parent_of(
                    i,
                ),
            forall|i: int|
                final(self).ok(i) ==> #[trigger] final(self).prev_of(i) == old(self).prev_of(i),
            forall|i: int|
                final(self).ok(i) ==> #[trigger] final(self).next_of(i) == old(self).next_of(i),
            forall|i: int|
                final(self).ok(i) ==> #[trigger] final(self).first_of(i) == old(self).first_of(i),
            forall|i: int|
                final(self).ok(i) ==> #[trigger] final(self).last_of(i) == old(self).last_of(i),
            forall|i: int|
                final(self).ok(i) ==> #[trigger] final(self).depth_of(i) == old(self).depth_of(i),
            final(self).height_bound() == old(self).height_bound(),
    {
        self.slots[id.index].value = value;
        proof {
            lemma_wf_same_links(*old(self), *self);
        }
    }

    /// Replaces the payload stored at `id` and hands the old payload back,
    /// leaving all links untouched.
    pub fn replace_value(&mut self, id: NodeId, value: T) -> (prior: T)
        requires
            old(self).wf(),
            old(self).ok(id@),
        ensures
            final(self).wf(),
            final(self).len() == old(self).len(),
            prior == old(self).value_at(id@),
            final(self).value_at(id@) == value,
            forall|i: int|
                final(self).ok(i) && i != id@ ==> #[trigger] final(self).value_at(i) == old(
                    self,
                ).value_at(i),
            forall|i: int|
                final(self).ok(i) ==> #[trigger] final(self).kids_of(i) == old(self).kids_of(i),
            forall|i: int|
                final(self).ok(i) ==> #[trigger] final(self).parent_of(i) == old(self).parent_of(
                    i,
                ),
            forall|i: int|
                final(self).ok(i) ==> #[trigger] final(self).prev_of(i) == old(self).prev_of(i),
            forall|i: int|
                final(self).ok(i) ==> #[trigger] final(self).next_of(i) == old(self).next_of(i),
            forall|i: int|
                final(self).ok(i) ==> #[trigger] final(self).first_of(i) == old(self).first_of(i),
            forall|i: int|
                final(self).ok(i) ==> #[trigger] final(self).last_of(i) == old(self).last_of(i),
            forall|i: int|
                final(self).ok(i) ==> #[trigger] final(self).depth_of(i) == old(self).depth_of(i),
            final(self).height_bound() == old(self).height_bound(),
    {
        let mut tmp = value;
        core::mem::swap(&mut self.slots[id.index].value, &mut tmp);
        proof {
            lemma_wf_same_links(*old(self), *self);
        }
        tmp
    }

    /// The parent of `id`, or `None` for a root or detached node.
    pub fn parent(&self, id: NodeId) -> (r: Option<NodeId>)
        requires
            self.wf(),
            self.ok(id@),
        ensures
            opt_view(r) == self.parent_of(id@),
            r.is_some() ==> self.ok(r->0@),
    {
        match self.slots[id.index].parent {
            Some(u) => {
                proof {
                    lemma_parent_ok(*self, id@);
                }
                Some(NodeId { index: u })
            },
            None => None,
        }
    }

    /// The first child of `id`.
    pub fn first_child(&self, id: NodeId) -> (r: Option<NodeId>)
        requires
            self.wf(),
            self.ok(id@),
        ensures
            opt_view(r) == self.first_of(id@),
            r.is_some() ==> self.ok(r->0@),
    {
        proof {
            assert(self.wf_list(id@));
        }
        match self.slots[id.index].first {
            Some(u) => Some(NodeId { index: u }),
            None => None,
        }
    }

    /// The last child of `id`.
    pub fn last_child(&self, id: NodeId) -> (r: Option<NodeId>)
        requires
            self.wf(),
            self.ok(id@),
        ensures
            opt_view(r) == self.last_of(id@),
            r.is_some() ==> self.ok(r->0@),
    {
        proof {
            assert(self.wf_list(id@));
        }
        match self.slots[id.index].last {
            Some(u) => Some(NodeId { index: u }),
            None => None,
        }
    }

    /// The next sibling of `id`.
    pub fn next_sibling(&self, id: NodeId) -> (r: Option<NodeId>)
        requires
            self.wf(),
            self.ok(id@),
        ensures
            opt_view(r) == self.next_of(id@),
            r.is_some() ==> self.ok(r->0@),
    {
        proof {
            lemma_sibling_ok(*self, id@);
        }
        match self.slots[id.index].next {
            Some(u) => Some(NodeId { index: u }),
            None => None,
        }
    }

    /// The previous sibling of `id`.
    pub fn prev_sibling(&self, id: NodeId) -> (r: Option<NodeId>)
        requires
            self.wf(),
            self.ok(id@),
        ensures
            opt_view(r) == self.prev_of(id@),
            r.is_some() ==> self.ok(r->0@),
    {
        proof {
            lemma_sibling_ok(*self, id@);
        }
        match self.slots[id.index].prev {
            Some(u) => Some(NodeId { index: u }),
            None => None,
        }
    }
}

impl<T> Tree<T> {
    /// The chain from `i` up towards the root of its component, cut off after
    /// `fuel` parent steps.
    pub closed spec fn anc_fuel(self, i: int, fuel: nat) -> Seq<int>
        decreases fuel,
    {
        match self.parent_of(i) {
            None => seq![i],
            Some(p) => if fuel == 0 {
                seq![i]
            } else {
                seq![i] + self.anc_fuel(p, (fuel - 1) as nat)
            },
        }
    }

    /// The chain of ancestors of `i`: `i` itself first, then its parent, and
    /// so on up to the root of its component.
    pub open spec fn ancestors(self, i: int) -> Seq<int> {
        self.anc_fuel(i, (self.height_bound() + 1) as nat)
    }

    /// Attaches the orphan `c` as the last child of `p`.
    ///
    /// `c` must currently have no parent, must not be the arena's root slot,
    /// and must not sit above `p` (that would close a cycle).
    #[verifier::rlimit(60)]
    #[verifier::spinoff_prover]
    pub fn append_id(&mut self, p: NodeId, c: NodeId)
        requires
            old(self).wf(),
            old(self).ok(p@),
            old(self).ok(c@),
            old(self).parent_of(c@) == None::<int>,
            c@ != 0,
            !old(self).ancestors(p@).contains(c@),
        ensures
            final(self).wf(),
            final(self).len() == old(self).len(),
            final(self).kids_of(p@) == old(self).kids_of(p@).push(c@),
            final(self).parent_of(c@) == Some(p@),
            forall|i: int|
                final(self).ok(i) && i != p@ ==> #[trigger] final(self).kids_of(i) == old(
                    self,
                ).kids_of(i),
            forall|i: int|
                final(self).ok(i) && i != c@ ==> #[trigger] final(self).parent_of(i) == old(
                    self,
                ).parent_of(i),
            forall|i: int|
                final(self).ok(i) ==> #[trigger] final(self).value_at(i) == old(self).value_at(i),
            append_rel(*old(self), *final(self), p@, c@),
    {
        let ghost t0 = *old(self);
        proof {
            lemma_ancestors_members(t0, p@);
            assert(t0.ancestors(p@).contains(p@));
            assert(c@ != p@);
            assert(t0.wf_list(p@));
        }
        let pi = p.index;
        let ci = c.index;
        let lastv = self.slots[pi].last;
        match lastv {
            Some(l) => {
                proof {
                    assert(t0.last_of(p@) == Some(l as int));
                    assert(t0.kids_of(p@).len() > 0);
                    assert(t0.kids_of(p@)[t0.kids_of(p@).len() - 1] == l as int);
                    assert(t0.ok(l as int));
                }
                self.slots[l].next = Some(ci);
                self.slots[ci].prev = Some(l);
            },
            None => {
                self.slots[pi].first = Some(ci);
            },
        }
        self.slots[pi].last = Some(ci);
        self.slots[ci].parent = Some(pi);
        proof {
            let delta = t0.depth_of(p@) + 1 - t0.depth_of(c@);
            self.kids@ = self.kids@.insert(p@, t0.kids_of(p@).push(c@));
            self.depth@ = Map::new(
                |x: int| true,
                |x: int|
                    if t0.ok(x) && t0.ancestors(x).contains(c@) {
                        t0.depth@[x] + delta
                    } else {
                        t0.depth@[x]
                    },
            );
            self.height@ = t0.height@ + t0.depth_of(p@) + 1;
            let t1 = *self;
            if t0.last_of(p@).is_some() {
                let l = t0.last_of(p@)->0;
                assert(t0.kids_of(p@).contains(t0.kids_of(p@)[t0.kids_of(p@).len() - 1]));
                assert(t0.parent_of(l) == Some(p@));
                assert(l != c@ && l != p@);
            }
            assert(append_rel(t0, t1, p@, c@));
            lemma_append_preserves_wf(t0, t1, p@, c@);
        }
    }

    /// The pre-order sequence of the subtree under `i`, cut off below the
    /// given recursion fuel.
    pub closed spec fn sub_fuel(self, i: int, fuel: nat) -> Seq<int>
        decreases fuel, 0nat,
    {
        if fuel == 0 {
            seq![i]
        } else {
            seq![i] + self.forest_fuel(self.kids_of(i), (fuel - 1) as nat)
        }
    }

    /// The concatenated pre-order sequences of the subtrees under each entry
    /// of `l`, at the given recursion fuel.
    pub closed spec fn forest_fuel(self, l: Seq<int>, fuel: nat) -> Seq<int>
        decreases fuel, l.len(),
    {
        if l.len() == 0 {
            Seq::empty()
        } else {
            self.sub_fuel(l[0], fuel) + self.forest_fuel(l.drop_first(), fuel)
        }
    }

    /// The subtree of `i` in document order: `i` first, then the subtrees of
    /// its children, left to right. In a well-formed arena the depth witness
    /// bounds the recursion, so the fuel never runs out.
    pub open spec fn subtree(self, i: int) -> Seq<int> {
        self.sub_fuel(i, (self.height_bound() + 1 - self.depth_of(i)) as nat)
    }

    /// Collects the subtree of `i` in document order: `i` itself first,
    /// then, child by child, each child's whole subtree.
    pub fn descendants(&self, i: NodeId) -> (r: Vec<NodeId>)
        requires
            self.wf(),
            self.ok(i@),
        ensures
            ids(r@) == self.subtree(i@),
        decreases self.height_bound() - self.depth_of(i@), 1nat,
    {
        let mut out: Vec<NodeId> = Vec::new();
        out.push(i);
        proof {
            assert(ids(out@) =~= seq![i@]);
        }
        self.collect_kids(i, &mut out);
        proof {
            lemma_subtree_unfold(*self, i@);
            assert(ids(out@) =~= self.subtree(i@));
        }
        out
    }

    /// Appends, child by child, the subtrees of `i`'s children to `out`.
    #[verifier::rlimit(100)]
    #[verifier::spinoff_prover]
    #[verifier::loop_isolation(false)]
    fn collect_kids(&self, i: NodeId, out: &mut Vec<NodeId>)
        requires
            self.wf(),
            self.ok(i@),
        ensures
            ids(final(out)@) == ids(old(out)@)
                + self.forest_fuel(
                self.kids_of(i@),
                (self.height_bound() - self.depth_of(i@)) as nat,
            ),
        decreases self.height_bound() - self.depth_of(i@), 0nat,
    {
        let ghost fuel_minus = (self.height_bound() - self.depth_of(i@)) as nat;
        let ghost ks = self.kids_of(i@);
        let ghost base = ids(out@);
        proof {
            assert(self.wf_list(i@));
            assert(ks.subrange(0, 0) =~= Seq::<int>::empty());
            assert(base + self.forest_fuel(ks.subrange(0, 0), fuel_minus) =~= base);
        }
        let mut cur = self.first_child(i);
        let ghost mut k: int = 0;
        loop
            invariant
                0 <= k <= ks.len(),
                opt_view(cur) == (if k < ks.len() {
                    Some(ks[k])
                } else {
                    None::<int>
                }),
                ids(out@) == base + self.forest_fuel(
                    ks.subrange(0, k),
                    fuel_minus,
                ),
            decreases ks.len() - k,
        {
            let c: NodeId;
            match cur {
                None => {
                    proof {
                        assert(k == ks.len());
                    }
                    break ;
                },
                Some(w) => {
                    c = w;
                },
            }
            proof {
                assert(k < ks.len());
                assert(self.wf_list(i@));
                assert(self.kids_of(i@)[k] == c@);
                assert(self.ok(c@));
                assert(self.depth_of(c@) == self.depth_of(i@) + 1);
            }
            let ghost mo = ids(out@);
            let mut sub = self.descendants(c);
            let ghost ms = ids(sub@);
            out.append(&mut sub);
            cur = self.next_sibling(c);
            proof {
                if k < ks.len() - 1 {
                    assert(self.next_of(self.kids_of(i@)[k]) == Some(ks[k + 1]));
                } else {
                    assert(self.next_of(self.kids_of(i@)[k]) == None::<int>);
                }
                lemma_forest_step(*self, i@, k);
                assert(ids(out@) =~= mo + ms);
                k = k + 1;
            }
        }
        proof {
            assert(ks.subrange(0, ks.len() as int) =~= ks);
        }
    }

    /// The position of `c` in `p`'s child list.
    pub open spec fn child_index(self, p: int, c: int) -> int {
        choose|k: int| 0 <= k < self.kids_of(p).len() && self.kids_of(p)[k] == c
    }

    /// Removes `c` from its parent's child list and clears its own parent and
    /// sibling links. Does nothing if `c` has no parent (a root or an already
    /// detached node).
    #[verifier::rlimit(60)]
    #[verifier::spinoff_prover]
    pub fn detach(&mut self, c: NodeId)
        requires
            old(self).wf(),
            old(self).ok(c@),
        ensures
            final(self).wf(),
            final(self).len() == old(self).len(),
            old(self).parent_of(c@) == None::<int> ==> *final(self) == *old(self),
            final(self).parent_of(c@) == None::<int>,
            old(self).parent_of(c@).is_some() ==> {
                let p = old(self).parent_of(c@)->0;
                let k = old(self).child_index(p, c@);
                &&& 0 <= k < old(self).kids_of(p).len()
                &&& old(self).kids_of(p)[k] == c@
                &&& final(self).kids_of(p) == old(self).kids_of(p).remove(k)
            },
            forall|i: int|
                final(self).ok(i) && opt_some_differs(old(self).parent_of(c@), i)
                    ==> #[trigger] final(self).kids_of(i) == old(self).kids_of(i),
            forall|i: int|
                final(self).ok(i) && i != c@ ==> #[trigger] final(self).parent_of(i) == old(
                    self,
                ).parent_of(i),
            forall|i: int|
                final(self).ok(i) ==> #[trigger] final(self).value_at(i) == old(self).value_at(i),
            forall|i: int|
                final(self).ok(i) ==> #[trigger] final(self).depth_of(i) == old(self).depth_of(i),
            final(self).height_bound() == old(self).height_bound(),
            old(self).parent_of(c@).is_some() ==> detach_rel(
                *old(self),
                *final(self),
                c@,
                old(self).parent_of(c@)->0,
                old(self).child_index(old(self).parent_of(c@)->0, c@),
            ),
    {
        let ghost t0 = *old(self);
        let parentv = self.slots[c.index].parent;
        let pu: usize;
        match parentv {
            None => {
                return ;
            },
            Some(q) => {
                pu = q;
            },
        }
        proof {
            lemma_parent_ok(t0, c@);
        }
        let ghost p = pu as int;
        let ghost ks = t0.kids_of(p);
        let ghost k = t0.child_index(p, c@);
        proof {
            assert(ks.contains(c@));
            let k0 = choose|k0: int| 0 <= k0 < ks.len() && ks[k0] == c@;
            assert(0 <= k < ks.len() && ks[k] == c@);
            assert(t0.wf_list(p));
            if k > 0 {
                assert(t0.ok(ks[k - 1]));
            }
            if k < ks.len() - 1 {
                assert(t0.ok(ks[k + 1]));
            }
        }
        let prevv = self.slots[c.index].prev;
        let nextv = self.slots[c.index].next;
        match prevv {
            Some(pr) => {
                self.slots[pr].next = nextv;
            },
            None => {
                self.slots[pu].first = nextv;
            },
        }
        match nextv {
            Some(nx) => {
                self.slots[nx].prev = prevv;
            },
            None => {
                self.slots[pu].last = prevv;
            },
        }
        self.slots[c.index].parent = None;
        self.slots[c.index].prev = None;
        self.slots[c.index].next = None;
        proof {
            self.kids@ = self.kids@.insert(p, ks.remove(k));
            let t1 = *self;
            assert(t0.prev_of(c@) == (if k == 0 {
                None::<int>
            } else {
                Some(ks[k - 1])
            }));
            assert(t0.next_of(c@) == (if k == ks.len() - 1 {
                None::<int>
            } else {
                Some(ks[k + 1])
            }));
            if k > 0 && k < ks.len() - 1 {
                assert(ks[k - 1] != ks[k + 1]);
            }
            assert(detach_rel(t0, t1, c@, p, k));
            lemma_detach_preserves_wf(t0, t1, c@, p, k);
        }
    }

    /// Links the orphan `c` as the sibling immediately before `s`.
    ///
    /// `s` must currently have a parent; `c` must have none, must not be the
    /// arena's root slot, and must not sit above `s` (that would close a
    /// cycle).
    #[verifier::rlimit(60)]
    #[verifier::spinoff_prover]
    pub fn insert_id_before(&mut self, s: NodeId, c: NodeId)
        requires
            old(self).wf(),
            old(self).ok(s@),
            old(self).ok(c@),
            old(self).parent_of(c@) == None::<int>,
            c@ != 0,
            old(self).parent_of(s@).is_some(),
            !old(self).ancestors(s@).contains(c@),
        ensures
            final(self).wf(),
            final(self).len() == old(self).len(),
            ({
                let p = old(self).parent_of(s@)->0;
                let k = old(self).child_index(p, s@);
                &&& 0 <= k < old(self).kids_of(p).len()
                &&& old(self).kids_of(p)[k] == s@
                &&& final(self).kids_of(p) == old(self).kids_of(p).insert(k, c@)
            }),
            final(self).parent_of(c@) == old(self).parent_of(s@),
            forall|i: int|
                final(self).ok(i) && i != old(self).parent_of(s@)->0
                    ==> #[trigger] final(self).kids_of(i) == old(self).kids_of(i),
            forall|i: int|
                final(self).ok(i) && i != c@ ==> #[trigger] final(self).parent_of(i) == old(
                    self,
                ).parent_of(i),
            forall|i: int|
                final(self).ok(i) ==> #[trigger] final(self).value_at(i) == old(self).value_at(i),
            insert_rel(
                *old(self),
                *final(self),
                s@,
                c@,
                old(self).parent_of(s@)->0,
                old(self).child_index(old(self).parent_of(s@)->0, s@),
            ),
    {
        let ghost t0 = *old(self);
        proof {
            lemma_parent_ok(t0, s@);
            lemma_ancestors_members(t0, s@);
            assert(t0.ancestors(s@).contains(s@));
            assert(c@ != s@);
            lemma_ancestors_unfold(t0, s@);
            lemma_cons_contains(s@, t0.ancestors(t0.parent_of(s@)->0), c@);
            assert(!t0.ancestors(t0.parent_of(s@)->0).contains(c@));
        }
        let si = s.index;
        let ci = c.index;
        let parentv = self.slots[si].parent;
        let pu: usize;
        match parentv {
            None => {
                proof {
                    assert(false);
                }
                pu = 0;
            },
            Some(q) => {
                pu = q;
            },
        }
        let ghost p = pu as int;
        let ghost ks = t0.kids_of(p);
        let ghost k = t0.child_index(p, s@);
        proof {
            assert(ks.contains(s@));
            let k0 = choose|k0: int| 0 <= k0 < ks.len() && ks[k0] == s@;
            assert(0 <= k < ks.len() && ks[k] == s@);
            assert(t0.wf_list(p));
            if k > 0 {
                assert(t0.ok(ks[k - 1]));
                assert(ks.contains(ks[k - 1]));
                assert(t0.parent_of(ks[k - 1]) == Some(p));
                assert(ks[k - 1] != c@);
            }
        }
        let prevv = self.slots[si].prev;
        match prevv {
            Some(pr) => {
                self.slots[pr].next = Some(ci);
                self.slots[ci].prev = Some(pr);
            },
            None => {
                self.slots[pu].first = Some(ci);
            },
        }
        self.slots[ci].next = Some(si);
        self.slots[si].prev = Some(ci);
        self.slots[ci].parent = Some(pu);
        proof {
            let delta = t0.depth_of(p) + 1 - t0.depth_of(c@);
            self.kids@ = self.kids@.insert(p, ks.insert(k, c@));
            self.depth@ = Map::new(
                |x: int| true,
                |x: int|
                    if t0.ok(x) && t0.ancestors(x).contains(c@) {
                        t0.depth@[x] + delta
                    } else {
                        t0.depth@[x]
                    },
            );
            self.height@ = t0.height@ + t0.depth_of(p) + 1;
            let t1 = *self;
            assert(insert_rel(t0, t1, s@, c@, p, k));
            lemma_insert_preserves_wf(t0, t1, s@, c@, p, k);
        }
    }

    /// Walks up from `node` and reports whether `candidate` lies on the chain
    /// of ancestors (the chain includes `node` itself).
    pub fn has_ancestor(&self, node: NodeId, candidate: NodeId) -> (r: bool)
        requires
            self.wf(),
            self.ok(node@),
            self.ok(candidate@),
        ensures
            r == self.ancestors(node@).contains(candidate@),
    {
        let mut cur = node;
        loop
            invariant
                self.wf(),
                self.ok(cur@),
                self.ok(candidate@),
                self.ancestors(node@).contains(candidate@) == self.ancestors(cur@).contains(
                    candidate@,
                ),
            decreases self.depth_of(cur@),
        {
            proof {
                lemma_ancestors_unfold(*self, cur@);
                lemma_ancestors_members(*self, cur@);
            }
            if cur == candidate {
                assert(self.ancestors(cur@)[0] == cur@);
                return true;
            }
            match self.parent(cur) {
                Some(p) => {
                    proof {
                        let q = self.parent_of(cur@)->0;
                        assert(self.ancestors(cur@) == seq![cur@] + self.ancestors(q));
                        assert forall|x: int| #[trigger]
                            self.ancestors(q).contains(x) implies self.ancestors(cur@).contains(
                            x,
                        ) by {
                            let k = choose|k: int|
                                0 <= k < self.ancestors(q).len() && self.ancestors(q)[k] == x;
                            assert(self.ancestors(cur@)[k + 1] == x);
                        }
                        if self.ancestors(cur@).contains(candidate@) {
                            let k = choose|k: int|
                                0 <= k < self.ancestors(cur@).len() && self.ancestors(cur@)[k]
                                    == candidate@;
                            assert(k != 0);
                            assert(self.ancestors(q)[k - 1] == candidate@);
                            assert(self.ancestors(q).contains(candidate@));
                        }
                        lemma_parent_ok(*self, cur@);
                        assert(self.kids_of(q).contains(cur@));
                        let k = choose|k: int|
                            0 <= k < self.kids_of(q).len() && self.kids_of(q)[k] == cur@;
                        assert(self.wf_list(q));
                        assert(self.depth_of(cur@) == self.depth_of(q) + 1);
                    }
                    cur = p;
                },
                None => {
                    proof {
                        assert(self.ancestors(cur@) =~= seq![cur@]);
                        assert(!self.ancestors(cur@).contains(candidate@));
                    }
                    return false;
                },
            }
        }
    }
}

/// True iff `o` is a `Some` holding something other than `i`.
pub open spec fn opt_some_differs(o: Option<int>, i: int) -> bool {
    match o {
        Some(x) => x != i,
        None => false,
    }
}

/// How one `detach` call relates the arena before (`t0`) to the arena after
/// (`t1`): `c` leaves position `k` of `p`'s child list, the neighbours are
/// linked to each other, and nothing else moves.
pub open spec fn detach_rel<T>(t0: Tree<T>, t1: Tree<T>, c: int, p: int, k: int) -> bool {
    let ks = t0.kids_of(p);
    &&& t0.wf()
    &&& t0.ok(c)
    &&& t0.parent_of(c) == Some(p)
    &&& 0 <= k < ks.len()
    &&& ks[k] == c
    &&& t1.len() == t0.len()
    &&& t1.kids_of(p) == ks.remove(k)
    &&& (forall|i: int| t0.ok(i) && i != p ==> #[trigger] t1.kids_of(i) == t0.kids_of(i))
    &&& t1.parent_of(c) == None::<int>
    &&& (forall|i: int| t0.ok(i) && i != c ==> #[trigger] t1.parent_of(i) == t0.parent_of(i))
    &&& t1.prev_of(c) == None::<int>
    &&& t1.next_of(c) == None::<int>
    &&& (k < ks.len() - 1 ==> t1.prev_of(ks[k + 1]) == (if k == 0 {
        None::<int>
    } else {
        Some(ks[k - 1])
    }))
    &&& (k > 0 ==> t1.next_of(ks[k - 1]) == (if k == ks.len() - 1 {
        None::<int>
    } else {
        Some(ks[k + 1])
    }))
    &&& (forall|i: int|
        t0.ok(i) && i != c && (k >= ks.len() - 1 || i != ks[k + 1]) ==> #[trigger] t1.prev_of(i)
            == t0.prev_of(i))
    &&& (forall|i: int|
        t0.ok(i) && i != c && (k <= 0 || i != ks[k - 1]) ==> #[trigger] t1.next_of(i)
            == t0.next_of(i))
    &&& t1.first_of(p) == (if ks.len() == 1 {
        None::<int>
    } else if k == 0 {
        Some(ks[1])
    } else {
        t0.first_of(p)
    })
    &&& t1.last_of(p) == (if ks.len() == 1 {
        None::<int>
    } else if k == ks.len() - 1 {
        Some(ks[k - 1])
    } else {
        t0.last_of(p)
    })
    &&& (forall|i: int| t0.ok(i) && i != p ==> #[trigger] t1.first_of(i) == t0.first_of(i))
    &&& (forall|i: int| t0.ok(i) && i != p ==> #[trigger] t1.last_of(i) == t0.last_of(i))
    &&& (forall|i: int| t0.ok(i) ==> #[trigger] t1.depth_of(i) == t0.depth_of(i))
    &&& t1.height_bound() == t0.height_bound()
}

/// After a detach, every child list is still consistently linked.
#[verifier::rlimit(100)]
#[verifier::spinoff_prover]
proof fn lemma_detach_wf_lists<T>(t0: Tree<T>, t1: Tree<T>, c: int, p: int, k: int)
    requires
        detach_rel(t0, t1, c, p, k),
    ensures
        forall|i: int| t1.ok(i) ==> #[trigger] t1.wf_list(i),
{
    let ks = t0.kids_of(p);
    assert(t0.wf_list(p));
    assert forall|i: int| t1.ok(i) implies #[trigger] t1.wf_list(i) by {
        assert(t0.ok(i));
        assert(t0.wf_list(i));
        if i == p {
            let ks1 = t1.kids_of(p);
            assert(ks1 == ks.remove(k));
            assert forall|j: int| 0 <= j < ks1.len() implies {
                let ch = #[trigger] ks1[j];
                &&& t1.ok(ch)
                &&& t1.parent_of(ch) == Some(i)
                &&& t1.depth_of(ch) == t1.depth_of(i) + 1
                &&& t1.prev_of(ch) == (if j == 0 {
                    None::<int>
                } else {
                    Some(ks1[j - 1])
                })
                &&& t1.next_of(ch) == (if j == ks1.len() - 1 {
                    None::<int>
                } else {
                    Some(ks1[j + 1])
                })
            } by {
                let ch = ks1[j];
                let oj = if j < k {
                    j
                } else {
                    j + 1
                };
                assert(ch == ks[oj]);
                assert(oj != k);
                assert(ch != c);
                assert(t0.ok(ch));
                assert(t0.parent_of(ch) == Some(p));
                assert(t0.depth_of(ch) == t0.depth_of(p) + 1);
                // previous link
                if j == 0 {
                    if oj == 0 {
                        assert(t0.prev_of(ch) == None::<int>);
                        assert(k >= ks.len() - 1 || ch != ks[k + 1] || k == 0);
                        if k < ks.len() - 1 && ch == ks[k + 1] {
                            assert(oj == k + 1);
                            assert(false);
                        }
                        assert(t1.prev_of(ch) == None::<int>);
                    } else {
                        assert(oj == k + 1 && k == 0);
                        assert(t1.prev_of(ch) == None::<int>);
                    }
                } else {
                    if oj == k + 1 {
                        assert(k > 0);
                        assert(t1.prev_of(ch) == Some(ks[k - 1]));
                        assert(ks1[j - 1] == ks[k - 1]);
                    } else {
                        assert(oj >= 1);
                        if k < ks.len() - 1 && ch == ks[k + 1] {
                            assert(oj == k + 1);
                            assert(false);
                        }
                        assert(t1.prev_of(ch) == t0.prev_of(ch));
                        assert(t0.prev_of(ch) == Some(ks[oj - 1]));
                        if j - 1 < k {
                            assert(ks1[j - 1] == ks[j - 1]);
                            assert(oj - 1 == j - 1);
                        } else {
                            assert(ks1[j - 1] == ks[j]);
                            assert(oj - 1 == j);
                        }
                    }
                }
                // next link
                if j == ks1.len() - 1 {
                    if oj == ks.len() - 1 {
                        assert(t0.next_of(ch) == None::<int>);
                        if k > 0 && ch == ks[k - 1] {
                            assert(oj == k - 1);
                            assert(false);
                        }
                        assert(t1.next_of(ch) == None::<int>);
                    } else {
                        assert(oj == k - 1 && k == ks.len() - 1);
                        assert(t1.next_of(ch) == None::<int>);
                    }
                } else {
                    if oj == k - 1 {
                        assert(k < ks.len() - 1);
                        assert(t1.next_of(ch) == Some(ks[k + 1]));
                        assert(ks1[j + 1] == ks[k + 1]);
                    } else {
                        if k > 0 && ch == ks[k - 1] {
                            assert(oj == k - 1);
                            assert(false);
                        }
                        assert(t1.next_of(ch) == t0.next_of(ch));
                        assert(t0.next_of(ch) == Some(ks[oj + 1]));
                        if j + 1 < k {
                            assert(ks1[j + 1] == ks[j + 1]);
                        } else {
                            assert(ks1[j + 1] == ks[j + 2]);
                        }
                    }
                }
            }
            if ks.len() > 1 {
                if k == 0 {
                    assert(t1.first_of(p) == Some(ks[1]));
                    assert(ks.remove(k)[0] == ks[1]);
                } else {
                    assert(t1.first_of(p) == t0.first_of(p));
                    assert(ks.remove(k)[0] == ks[0]);
                }
                if k == ks.len() - 1 {
                    assert(t1.last_of(p) == Some(ks[k - 1]));
                    assert(ks.remove(k)[ks.len() - 2] == ks[k - 1]);
                } else {
                    assert(t1.last_of(p) == t0.last_of(p));
                    assert(ks.remove(k)[ks.len() - 2] == ks[ks.len() - 1]);
                }
            }
        } else {
            assert(t1.kids_of(i) == t0.kids_of(i));
            let ksi = t0.kids_of(i);
            assert forall|j: int| 0 <= j < ksi.len() implies {
                let ch = #[trigger] ksi[j];
                &&& t1.ok(ch)
                &&& t1.parent_of(ch) == Some(i)
                &&& t1.depth_of(ch) == t1.depth_of(i) + 1
                &&& t1.prev_of(ch) == (if j == 0 {
                    None::<int>
                } else {
                    Some(ksi[j - 1])
                })
                &&& t1.next_of(ch) == (if j == ksi.len() - 1 {
                    None::<int>
                } else {
                    Some(ksi[j + 1])
                })
            } by {
                let ch = ksi[j];
                assert(ksi.contains(ch));
                assert(t0.ok(ch));
                assert(t0.parent_of(ch) == Some(i));
                assert(ch != c);
                if k < ks.len() - 1 && ch == ks[k + 1] {
                    assert(ks.contains(ks[k + 1]));
                    assert(t0.parent_of(ch) == Some(p));
                    assert(false);
                }
                if k > 0 && ch == ks[k - 1] {
                    assert(ks.contains(ks[k - 1]));
                    assert(t0.parent_of(ch) == Some(p));
                    assert(false);
                }
                assert(t1.prev_of(ch) == t0.prev_of(ch));
                assert(t1.next_of(ch) == t0.next_of(ch));
            }
        }
    }
}

/// After a detach, the remaining well-formedness clauses still hold.
#[verifier::rlimit(100)]
#[verifier::spinoff_prover]
proof fn lemma_detach_wf_rest<T>(t0: Tree<T>, t1: Tree<T>, c: int, p: int, k: int)
    requires
        detach_rel(t0, t1, c, p, k),
    ensures
        t1.len() >= 1,
        t1.parent_of(0) == None::<int>,
        0 <= t1.height_bound(),
        forall|i: int| t1.ok(i) ==> 0 <= #[trigger] t1.depth_of(i) <= t1.height_bound(),
        forall|q: int, k1: int, k2: int|
            t1.ok(q) && 0 <= k1 < t1.kids_of(q).len() && 0 <= k2 < t1.kids_of(q).len()
                && #[trigger] t1.kids_of(q)[k1] == #[trigger] t1.kids_of(q)[k2] ==> k1 == k2,
        forall|x: int|
            t1.ok(x) && (#[trigger] t1.parent_of(x)).is_some() ==> {
                let q = t1.parent_of(x)->0;
                &&& t1.ok(q)
                &&& t1.kids_of(q).contains(x)
            },
        forall|x: int|
            t1.ok(x) && #[trigger] t1.parent_of(x) == None::<int> ==> t1.prev_of(x) == None::<int>
                && t1.next_of(x) == None::<int>,
{
    let ks = t0.kids_of(p);
    assert(t0.wf_list(p));
    assert(c != 0);
    assert forall|q: int, k1: int, k2: int|
        t1.ok(q) && 0 <= k1 < t1.kids_of(q).len() && 0 <= k2 < t1.kids_of(q).len()
            && #[trigger] t1.kids_of(q)[k1] == #[trigger] t1.kids_of(q)[k2] implies k1 == k2 by {
        if q == p {
            let o1 = if k1 < k {
                k1
            } else {
                k1 + 1
            };
            let o2 = if k2 < k {
                k2
            } else {
                k2 + 1
            };
            assert(t1.kids_of(q)[k1] == ks[o1]);
            assert(t1.kids_of(q)[k2] == ks[o2]);
            assert(ks[o1] == ks[o2]);
            assert(o1 == o2);
        } else {
            assert(t1.kids_of(q) == t0.kids_of(q));
            assert(t0.kids_of(q)[k1] == t0.kids_of(q)[k2]);
        }
    }
    assert forall|x: int|
        t1.ok(x) && (#[trigger] t1.parent_of(x)).is_some() implies {
            let q = t1.parent_of(x)->0;
            &&& t1.ok(q)
            &&& t1.kids_of(q).contains(x)
        } by {
        assert(x != c);
        assert(t0.parent_of(x).is_some());
        let q = t0.parent_of(x)->0;
        lemma_parent_ok(t0, x);
        assert(t0.kids_of(q).contains(x));
        if q == p {
            let j = choose|j: int| 0 <= j < ks.len() && ks[j] == x;
            assert(j != k);
            if j < k {
                assert(t1.kids_of(p)[j] == x);
            } else {
                assert(t1.kids_of(p)[j - 1] == x);
            }
            assert(t1.kids_of(p).contains(x));
        } else {
            assert(t1.kids_of(q) == t0.kids_of(q));
        }
    }
    assert forall|x: int|
        t1.ok(x) && #[trigger] t1.parent_of(x) == None::<int> implies t1.prev_of(x) == None::<int>
            && t1.next_of(x) == None::<int> by {
        if x != c {
            assert(t0.parent_of(x) == None::<int>);
            if k < ks.len() - 1 && x == ks[k + 1] {
                assert(ks.contains(ks[k + 1]));
                assert(t0.parent_of(x) == Some(p));
                assert(false);
            }
            if k > 0 && x == ks[k - 1] {
                assert(ks.contains(ks[k - 1]));
                assert(t0.parent_of(x) == Some(p));
                assert(false);
            }
            assert(t1.prev_of(x) == t0.prev_of(x));
            assert(t1.next_of(x) == t0.next_of(x));
        }
    }
}

/// A detach preserves well-formedness.
proof fn lemma_detach_preserves_wf<T>(t0: Tree<T>, t1: Tree<T>, c: int, p: int, k: int)
    requires
        detach_rel(t0, t1, c, p, k),
    ensures
        t1.wf(),
{
    lemma_detach_wf_lists(t0, t1, c, p, k);
    lemma_detach_wf_rest(t0, t1, c, p, k);
}

/// How one `insert_id_before` call relates the arena before (`t0`) to the
/// arena after (`t1`): `c` takes position `k` in `p`'s child list, directly
/// before `s`, the depth witnesses of `c`'s component are shifted, and
/// nothing else moves.
pub open spec fn insert_rel<T>(t0: Tree<T>, t1: Tree<T>, s: int, c: int, p: int, k: int) -> bool {
    let ks = t0.kids_of(p);
    let delta = t0.depth_of(p) + 1 - t0.depth_of(c);
    &&& t0.wf()
    &&& t0.ok(s)
    &&& t0.ok(c)
    &&& t0.parent_of(c) == None::<int>
    &&& c != 0
    &&& t0.parent_of(s) == Some(p)
    &&& !t0.ancestors(p).contains(c)
    &&& 0 <= k < ks.len()
    &&& ks[k] == s
    &&& t1.len() == t0.len()
    &&& t1.kids_of(p) == ks.insert(k, c)
    &&& (forall|i: int| t0.ok(i) && i != p ==> #[trigger] t1.kids_of(i) == t0.kids_of(i))
    &&& t1.parent_of(c) == Some(p)
    &&& (forall|i: int| t0.ok(i) && i != c ==> #[trigger] t1.parent_of(i) == t0.parent_of(i))
    &&& t1.prev_of(c) == (if k == 0 {
        None::<int>
    } else {
        Some(ks[k - 1])
    })
    &&& t1.prev_of(s) == Some(c)
    &&& (forall|i: int|
        t0.ok(i) && i != c && i != s ==> #[trigger] t1.prev_of(i) == t0.prev_of(i))
    &&& t1.next_of(c) == Some(s)
    &&& (k > 0 ==> t1.next_of(ks[k - 1]) == Some(c))
    &&& (forall|i: int|
        t0.ok(i) && i != c && (k <= 0 || i != ks[k - 1]) ==> #[trigger] t1.next_of(i)
            == t0.next_of(i))
    &&& t1.first_of(p) == (if k == 0 {
        Some(c)
    } else {
        t0.first_of(p)
    })
    &&& (forall|i: int| t0.ok(i) && i != p ==> #[trigger] t1.first_of(i) == t0.first_of(i))
    &&& (forall|i: int| t0.ok(i) ==> #[trigger] t1.last_of(i) == t0.last_of(i))
    &&& (forall|x: int|
        t0.ok(x) ==> #[trigger] t1.depth_of(x) == (if t0.ancestors(x).contains(c) {
            t0.depth_of(x) + delta
        } else {
            t0.depth_of(x)
        }))
    &&& t1.height_bound() == t0.height_bound() + t0.depth_of(p) + 1
}

/// After an insert-before, every child list is still consistently linked.
#[verifier::rlimit(100)]
#[verifier::spinoff_prover]
proof fn lemma_insert_wf_lists<T>(t0: Tree<T>, t1: Tree<T>, s: int, c: int, p: int, k: int)
    requires
        insert_rel(t0, t1, s, c, p, k),
    ensures
        forall|i: int| t1.ok(i) ==> #[trigger] t1.wf_list(i),
{
    let ks = t0.kids_of(p);
    assert(t0.wf_list(p));
    // A node and its parent sit on the same side of the depth shift.
    assert forall|x: int|
        t0.ok(x) && (#[trigger] t0.parent_of(x)).is_some() implies (t0.ancestors(x).contains(c)
        == t0.ancestors(t0.parent_of(x)->0).contains(c)) by {
        let y = t0.parent_of(x)->0;
        lemma_parent_ok(t0, x);
        lemma_ancestors_unfold(t0, x);
        assert(t0.ancestors(x) == seq![x] + t0.ancestors(y));
        lemma_cons_contains(x, t0.ancestors(y), c);
        assert(x != c);
    }
    lemma_ancestors_unfold(t0, c);
    assert(t0.ancestors(c) =~= seq![c]);
    assert(t0.ancestors(c)[0] == c);
    assert(t0.ancestors(c).contains(c));
    assert(t1.depth_of(c) == t0.depth_of(p) + 1);
    assert(t1.depth_of(p) == t0.depth_of(p));
    assert forall|i: int| t1.ok(i) implies #[trigger] t1.wf_list(i) by {
        assert(t0.ok(i));
        assert(t0.wf_list(i));
        if i == p {
            let ks1 = t1.kids_of(p);
            assert(ks1 == ks.insert(k, c));
            ks.insert_ensures(k, c);
            assert forall|j: int| 0 <= j < ks1.len() implies {
                let ch = #[trigger] ks1[j];
                &&& t1.ok(ch)
                &&& t1.parent_of(ch) == Some(i)
                &&& t1.depth_of(ch) == t1.depth_of(i) + 1
                &&& t1.prev_of(ch) == (if j == 0 {
                    None::<int>
                } else {
                    Some(ks1[j - 1])
                })
                &&& t1.next_of(ch) == (if j == ks1.len() - 1 {
                    None::<int>
                } else {
                    Some(ks1[j + 1])
                })
            } by {
                if j < k {
                    let ch = ks1[j];
                    assert(ch == ks[j]);
                    assert(ch != c);
                    assert(ch != s);
                    if k > 0 && ch == ks[k - 1] {
                        assert(j == k - 1);
                        assert(t1.next_of(ch) == Some(c));
                        assert(ks1[j + 1] == c);
                    } else {
                        assert(t1.next_of(ch) == t0.next_of(ch));
                        assert(ks1[j + 1] == ks[j + 1]);
                    }
                    assert(t1.prev_of(ch) == t0.prev_of(ch));
                    if j > 0 {
                        assert(ks1[j - 1] == ks[j - 1]);
                    }
                    assert(t0.ancestors(ch).contains(c) == t0.ancestors(p).contains(c));
                } else if j == k {
                    let ch = ks1[j];
                    assert(ch == c);
                    if k > 0 {
                        assert(ks1[k - 1] == ks[k - 1]);
                    }
                    assert(ks1[k + 1] == ks[k]);
                } else {
                    let ch = ks1[j];
                    assert(ch == ks[j - 1]);
                    assert(ch != c);
                    assert(t0.ancestors(ch).contains(c) == t0.ancestors(p).contains(c));
                    if j == k + 1 {
                        assert(ch == s);
                        assert(t1.prev_of(ch) == Some(c));
                        assert(ks1[j - 1] == c);
                    } else {
                        assert(ch != s);
                        assert(t1.prev_of(ch) == t0.prev_of(ch));
                        assert(t0.prev_of(ch) == Some(ks[j - 2]));
                        assert(ks1[j - 1] == ks[j - 2]);
                    }
                    if k > 0 && ch == ks[k - 1] {
                        assert(j - 1 == k - 1);
                        assert(false);
                    }
                    assert(t1.next_of(ch) == t0.next_of(ch));
                    if j == ks1.len() - 1 {
                        assert(t0.next_of(ch) == None::<int>);
                    } else {
                        assert(t0.next_of(ch) == Some(ks[j]));
                        assert(ks1[j + 1] == ks[j]);
                    }
                }
            }
            assert(ks1[ks1.len() - 1] == ks[ks.len() - 1]);
            assert(ks1[0] == (if k == 0 {
                c
            } else {
                ks[0]
            }));
        } else {
            assert(t1.kids_of(i) == t0.kids_of(i));
            let ksi = t0.kids_of(i);
            assert forall|j: int| 0 <= j < ksi.len() implies {
                let ch = #[trigger] ksi[j];
                &&& t1.ok(ch)
                &&& t1.parent_of(ch) == Some(i)
                &&& t1.depth_of(ch) == t1.depth_of(i) + 1
                &&& t1.prev_of(ch) == (if j == 0 {
                    None::<int>
                } else {
                    Some(ksi[j - 1])
                })
                &&& t1.next_of(ch) == (if j == ksi.len() - 1 {
                    None::<int>
                } else {
                    Some(ksi[j + 1])
                })
            } by {
                let ch = ksi[j];
                assert(ksi.contains(ch));
                assert(t0.ok(ch));
                assert(t0.parent_of(ch) == Some(i));
                assert(ch != c);
                if ch == s {
                    assert(t0.parent_of(s) == Some(p));
                    assert(false);
                }
                if k > 0 && ch == ks[k - 1] {
                    assert(ks.contains(ks[k - 1]));
                    assert(t0.parent_of(ch) == Some(p));
                    assert(false);
                }
                assert(t1.prev_of(ch) == t0.prev_of(ch));
                assert(t1.next_of(ch) == t0.next_of(ch));
                assert(t0.ancestors(ch).contains(c) == t0.ancestors(i).contains(c));
            }
        }
    }
}

/// After an insert-before, the remaining well-formedness clauses still hold.
#[verifier::rlimit(100)]
#[verifier::spinoff_prover]
proof fn lemma_insert_wf_rest<T>(t0: Tree<T>, t1: Tree<T>, s: int, c: int, p: int, k: int)
    requires
        insert_rel(t0, t1, s, c, p, k),
    ensures
        t1.len() >= 1,
        t1.parent_of(0) == None::<int>,
        0 <= t1.height_bound(),
        forall|i: int| t1.ok(i) ==> 0 <= #[trigger] t1.depth_of(i) <= t1.height_bound(),
        forall|q: int, k1: int, k2: int|
            t1.ok(q) && 0 <= k1 < t1.kids_of(q).len() && 0 <= k2 < t1.kids_of(q).len()
                && #[trigger] t1.kids_of(q)[k1] == #[trigger] t1.kids_of(q)[k2] ==> k1 == k2,
        forall|x: int|
            t1.ok(x) && (#[trigger] t1.parent_of(x)).is_some() ==> {
                let q = t1.parent_of(x)->0;
                &&& t1.ok(q)
                &&& t1.kids_of(q).contains(x)
            },
        forall|x: int|
            t1.ok(x) && #[trigger] t1.parent_of(x) == None::<int> ==> t1.prev_of(x) == None::<int>
                && t1.next_of(x) == None::<int>,
{
    let ks = t0.kids_of(p);
    assert(t0.wf_list(p));
    ks.insert_ensures(k, c);
    lemma_ancestors_members(t0, p);
    assert(t0.ancestors(p).contains(p));
    assert(c != p);
    assert forall|x: int| t1.ok(x) implies 0 <= #[trigger] t1.depth_of(x)
        <= t1.height_bound() by {
        assert(t0.ok(x));
        if t0.ancestors(x).contains(c) {
            lemma_ancestors_members(t0, x);
            assert(t0.depth_of(c) <= t0.depth_of(x));
        }
    }
    assert forall|q: int, k1: int, k2: int|
        t1.ok(q) && 0 <= k1 < t1.kids_of(q).len() && 0 <= k2 < t1.kids_of(q).len()
            && #[trigger] t1.kids_of(q)[k1] == #[trigger] t1.kids_of(q)[k2] implies k1 == k2 by {
        if q == p {
            let v1 = t1.kids_of(q)[k1];
            if k1 != k && k2 != k {
                let o1 = if k1 < k {
                    k1
                } else {
                    k1 - 1
                };
                let o2 = if k2 < k {
                    k2
                } else {
                    k2 - 1
                };
                assert(t1.kids_of(q)[k1] == ks[o1]);
                assert(t1.kids_of(q)[k2] == ks[o2]);
                assert(o1 == o2);
            } else if k1 == k && k2 != k {
                let o2 = if k2 < k {
                    k2
                } else {
                    k2 - 1
                };
                assert(t1.kids_of(q)[k2] == ks[o2]);
                assert(ks.contains(ks[o2]));
                assert(t0.parent_of(ks[o2]) == Some(p));
                assert(v1 == c);
                assert(false);
            } else if k2 == k && k1 != k {
                let o1 = if k1 < k {
                    k1
                } else {
                    k1 - 1
                };
                assert(t1.kids_of(q)[k1] == ks[o1]);
                assert(ks.contains(ks[o1]));
                assert(t0.parent_of(ks[o1]) == Some(p));
                assert(t1.kids_of(q)[k2] == c);
                assert(false);
            }
        } else {
            assert(t1.kids_of(q) == t0.kids_of(q));
            assert(t0.kids_of(q)[k1] == t0.kids_of(q)[k2]);
        }
    }
    assert forall|x: int|
        t1.ok(x) && (#[trigger] t1.parent_of(x)).is_some() implies {
            let q = t1.parent_of(x)->0;
            &&& t1.ok(q)
            &&& t1.kids_of(q).contains(x)
        } by {
        if x == c {
            assert(t1.kids_of(p)[k] == c);
            assert(t1.kids_of(p).contains(c));
        } else {
            assert(t0.parent_of(x).is_some());
            let q = t0.parent_of(x)->0;
            lemma_parent_ok(t0, x);
            assert(t0.kids_of(q).contains(x));
            if q == p {
                let j = choose|j: int| 0 <= j < ks.len() && ks[j] == x;
                if j < k {
                    assert(t1.kids_of(p)[j] == x);
                } else {
                    assert(t1.kids_of(p)[j + 1] == x);
                }
                assert(t1.kids_of(p).contains(x));
            } else {
                assert(t1.kids_of(q) == t0.kids_of(q));
            }
        }
    }
    assert forall|x: int|
        t1.ok(x) && #[trigger] t1.parent_of(x) == None::<int> implies t1.prev_of(x) == None::<int>
            && t1.next_of(x) == None::<int> by {
        assert(x != c);
        assert(t0.parent_of(x) == None::<int>);
        if x == s {
            assert(false);
        }
        if k > 0 && x == ks[k - 1] {
            assert(ks.contains(ks[k - 1]));
            assert(t0.parent_of(x) == Some(p));
            assert(false);
        }
        assert(t1.prev_of(x) == t0.prev_of(x));
        assert(t1.next_of(x) == t0.next_of(x));
    }
}

/// An insert-before preserves well-formedness.
proof fn lemma_insert_preserves_wf<T>(t0: Tree<T>, t1: Tree<T>, s: int, c: int, p: int, k: int)
    requires
        insert_rel(t0, t1, s, c, p, k),
    ensures
        t1.wf(),
{
    lemma_insert_wf_lists(t0, t1, s, c, p, k);
    lemma_insert_wf_rest(t0, t1, s, c, p, k);
}

/// Membership in a one-element sequence followed by a tail.
pub proof fn lemma_cons_contains(x: int, s: Seq<int>, y: int)
    ensures
        (seq![x] + s).contains(y) <==> (y == x || s.contains(y)),
{
    if (seq![x] + s).contains(y) {
        let k = choose|k: int| 0 <= k < (seq![x] + s).len() && (seq![x] + s)[k] == y;
        if k > 0 {
            assert(s[k - 1] == y);
            assert(s.contains(y));
        }
    }
    if y == x {
        assert((seq![x] + s)[0] == y);
    } else if s.contains(y) {
        let k = choose|k: int| 0 <= k < s.len() && s[k] == y;
        assert((seq![x] + s)[k + 1] == y);
    }
}

/// How one `append_id` call relates the arena before (`t0`) to the arena
/// after (`t1`): `c` hangs off the end of `p`'s child list, the depth
/// witnesses of `c`'s component are shifted, and nothing else moves.
pub open spec fn append_rel<T>(t0: Tree<T>, t1: Tree<T>, p: int, c: int) -> bool {
    let delta = t0.depth_of(p) + 1 - t0.depth_of(c);
    &&& t0.wf()
    &&& t0.ok(p)
    &&& t0.ok(c)
    &&& t0.parent_of(c) == None::<int>
    &&& c != 0
    &&& !t0.ancestors(p).contains(c)
    &&& t1.len() == t0.len()
    &&& t1.kids_of(p) == t0.kids_of(p).push(c)
    &&& (forall|i: int| t0.ok(i) && i != p ==> #[trigger] t1.kids_of(i) == t0.kids_of(i))
    &&& t1.parent_of(c) == Some(p)
    &&& (forall|i: int| t0.ok(i) && i != c ==> #[trigger] t1.parent_of(i) == t0.parent_of(i))
    &&& t1.prev_of(c) == t0.last_of(p)
    &&& (forall|i: int| t0.ok(i) && i != c ==> #[trigger] t1.prev_of(i) == t0.prev_of(i))
    &&& (t0.last_of(p).is_some() ==> t1.next_of(t0.last_of(p)->0) == Some(c))
    &&& (forall|i: int|
        t0.ok(i) && t0.last_of(p) != Some(i) ==> #[trigger] t1.next_of(i) == t0.next_of(i))
    &&& t1.first_of(p) == (if t0.kids_of(p).len() == 0 {
        Some(c)
    } else {
        t0.first_of(p)
    })
    &&& t1.last_of(p) == Some(c)
    &&& (forall|i: int| t0.ok(i) && i != p ==> #[trigger] t1.first_of(i) == t0.first_of(i))
    &&& (forall|i: int| t0.ok(i) && i != p ==> #[trigger] t1.last_of(i) == t0.last_of(i))
    &&& (forall|x: int|
        t0.ok(x) ==> #[trigger] t1.depth_of(x) == (if t0.ancestors(x).contains(c) {
            t0.depth_of(x) + delta
        } else {
            t0.depth_of(x)
        }))
    &&& t1.height_bound() == t0.height_bound() + t0.depth_of(p) + 1
}

/// After an append, every child list is still consistently linked.
#[verifier::rlimit(100)]
#[verifier::spinoff_prover]
proof fn lemma_append_wf_lists<T>(t0: Tree<T>, t1: Tree<T>, p: int, c: int)
    requires
        append_rel(t0, t1, p, c),
    ensures
        forall|i: int| t1.ok(i) ==> #[trigger] t1.wf_list(i),
{
    // A node and its parent sit on the same side of the depth shift.
    assert forall|x: int|
        t0.ok(x) && (#[trigger] t0.parent_of(x)).is_some() implies (t0.ancestors(x).contains(c)
        == t0.ancestors(t0.parent_of(x)->0).contains(c)) by {
        let y = t0.parent_of(x)->0;
        lemma_parent_ok(t0, x);
        lemma_ancestors_unfold(t0, x);
        assert(t0.ancestors(x) == seq![x] + t0.ancestors(y));
        lemma_cons_contains(x, t0.ancestors(y), c);
        assert(x != c);
    }
    lemma_ancestors_unfold(t0, c);
    assert(t0.ancestors(c) =~= seq![c]);
    assert(t0.ancestors(c)[0] == c);
    assert(t0.ancestors(c).contains(c));
    assert(t1.depth_of(c) == t0.depth_of(p) + 1);
    assert(t1.depth_of(p) == t0.depth_of(p));
    if t0.last_of(p).is_some() {
        let l = t0.last_of(p)->0;
        assert(t0.wf_list(p));
        assert(t0.kids_of(p).contains(t0.kids_of(p)[t0.kids_of(p).len() - 1]));
        assert(t0.parent_of(l) == Some(p));
        assert(t0.ok(l));
    }
    assert forall|i: int| t1.ok(i) implies #[trigger] t1.wf_list(i) by {
        assert(t0.ok(i));
        assert(t0.wf_list(i));
        if i == p {
            let ks0 = t0.kids_of(p);
            let ks1 = t1.kids_of(p);
            assert(ks1 == ks0.push(c));
            assert forall|k: int| 0 <= k < ks1.len() implies {
                let ch = #[trigger] ks1[k];
                &&& t1.ok(ch)
                &&& t1.parent_of(ch) == Some(i)
                &&& t1.depth_of(ch) == t1.depth_of(i) + 1
                &&& t1.prev_of(ch) == (if k == 0 {
                    None::<int>
                } else {
                    Some(ks1[k - 1])
                })
                &&& t1.next_of(ch) == (if k == ks1.len() - 1 {
                    None::<int>
                } else {
                    Some(ks1[k + 1])
                })
            } by {
                let ch = ks1[k];
                if k < ks0.len() {
                    assert(ks0[k] == ch);
                    assert(ks0.contains(ch));
                    assert(t0.ok(ch));
                    assert(t0.parent_of(ch) == Some(p));
                    assert(ch != c);
                    assert(t0.ancestors(ch).contains(c) == t0.ancestors(p).contains(c));
                    assert(t1.depth_of(ch) == t0.depth_of(ch));
                    if k == ks0.len() - 1 {
                        assert(t0.last_of(p) == Some(ch));
                        assert(t1.next_of(ch) == Some(c));
                        assert(ks1[k + 1] == c);
                    } else {
                        assert(t0.last_of(p) == Some(ks0[ks0.len() - 1]));
                        assert(ks0[ks0.len() - 1] != ch);
                        assert(t1.next_of(ch) == t0.next_of(ch));
                    }
                } else {
                    assert(ch == c);
                    assert(t0.prev_of(c) == None::<int>);
                    assert(t0.next_of(c) == None::<int>);
                    assert(t1.prev_of(c) == t0.last_of(p));
                    if ks0.len() > 0 {
                        assert(ks0.contains(ks0[ks0.len() - 1]));
                        assert(ks0[ks0.len() - 1] != c);
                        assert(t0.last_of(p) == Some(ks0[ks0.len() - 1]));
                        assert(ks1[k - 1] == ks0[ks0.len() - 1]);
                    }
                    if t0.last_of(p) != Some(c) {
                        assert(t1.next_of(c) == t0.next_of(c));
                    }
                }
            }
        } else {
            assert(t1.kids_of(i) == t0.kids_of(i));
            let ks = t0.kids_of(i);
            assert forall|k: int| 0 <= k < ks.len() implies {
                let ch = #[trigger] ks[k];
                &&& t1.ok(ch)
                &&& t1.parent_of(ch) == Some(i)
                &&& t1.depth_of(ch) == t1.depth_of(i) + 1
                &&& t1.prev_of(ch) == (if k == 0 {
                    None::<int>
                } else {
                    Some(ks[k - 1])
                })
                &&& t1.next_of(ch) == (if k == ks.len() - 1 {
                    None::<int>
                } else {
                    Some(ks[k + 1])
                })
            } by {
                let ch = ks[k];
                assert(ks.contains(ch));
                assert(t0.ok(ch));
                assert(t0.parent_of(ch) == Some(i));
                assert(ch != c);
                assert(t0.ancestors(ch).contains(c) == t0.ancestors(i).contains(c));
                if t0.last_of(p) == Some(ch) {
                    assert(t0.kids_of(p).contains(t0.kids_of(p)[t0.kids_of(p).len() - 1]));
                    assert(t0.parent_of(ch) == Some(p));
                    assert(i == p);
                    assert(false);
                }
                assert(t1.next_of(ch) == t0.next_of(ch));
                assert(t1.prev_of(ch) == t0.prev_of(ch));
            }
            assert(t1.first_of(i) == t0.first_of(i));
            assert(t1.last_of(i) == t0.last_of(i));
        }
    }
}

/// After an append, the remaining well-formedness clauses still hold.
#[verifier::rlimit(100)]
#[verifier::spinoff_prover]
proof fn lemma_append_wf_rest<T>(t0: Tree<T>, t1: Tree<T>, p: int, c: int)
    requires
        append_rel(t0, t1, p, c),
    ensures
        t1.len() >= 1,
        t1.parent_of(0) == None::<int>,
        0 <= t1.height_bound(),
        forall|i: int| t1.ok(i) ==> 0 <= #[trigger] t1.depth_of(i) <= t1.height_bound(),
        forall|q: int, k1: int, k2: int|
            t1.ok(q) && 0 <= k1 < t1.kids_of(q).len() && 0 <= k2 < t1.kids_of(q).len()
                && #[trigger] t1.kids_of(q)[k1] == #[trigger] t1.kids_of(q)[k2] ==> k1 == k2,
        forall|x: int|
            t1.ok(x) && (#[trigger] t1.parent_of(x)).is_some() ==> {
                let q = t1.parent_of(x)->0;
                &&& t1.ok(q)
                &&& t1.kids_of(q).contains(x)
            },
        forall|x: int|
            t1.ok(x) && #[trigger] t1.parent_of(x) == None::<int> ==> t1.prev_of(x) == None::<int>
                && t1.next_of(x) == None::<int>,
{
    lemma_ancestors_members(t0, p);
    assert(c != p);
    // Shifted nodes sit at or below c, so their new depth stays in range.
    assert forall|x: int| t1.ok(x) implies 0 <= #[trigger] t1.depth_of(x)
        <= t1.height_bound() by {
        assert(t0.ok(x));
        if t0.ancestors(x).contains(c) {
            lemma_ancestors_members(t0, x);
            assert(t0.depth_of(c) <= t0.depth_of(x));
        }
    }
    assert forall|q: int, k1: int, k2: int|
        t1.ok(q) && 0 <= k1 < t1.kids_of(q).len() && 0 <= k2 < t1.kids_of(q).len()
            && #[trigger] t1.kids_of(q)[k1] == #[trigger] t1.kids_of(q)[k2] implies k1 == k2 by {
        if q == p {
            let ks0 = t0.kids_of(p);
            if k1 < ks0.len() && k2 < ks0.len() {
                assert(t0.kids_of(q)[k1] == t0.kids_of(q)[k2]);
            } else if k1 < ks0.len() {
                assert(t0.wf_list(p));
                assert(t0.kids_of(p)[k1] == c);
                assert(t0.parent_of(c) == Some(p));
                assert(false);
            } else if k2 < ks0.len() {
                assert(t0.wf_list(p));
                assert(t0.kids_of(p)[k2] == c);
                assert(t0.parent_of(c) == Some(p));
                assert(false);
            }
        } else {
            assert(t1.kids_of(q) == t0.kids_of(q));
            assert(t0.kids_of(q)[k1] == t0.kids_of(q)[k2]);
        }
    }
    assert forall|x: int|
        t1.ok(x) && (#[trigger] t1.parent_of(x)).is_some() implies {
            let q = t1.parent_of(x)->0;
            &&& t1.ok(q)
            &&& t1.kids_of(q).contains(x)
        } by {
        if x == c {
            assert(t1.kids_of(p)[t0.kids_of(p).len() as int] == c);
            assert(t1.kids_of(p).contains(c));
        } else {
            assert(t0.parent_of(x).is_some());
            let q = t0.parent_of(x)->0;
            lemma_parent_ok(t0, x);
            assert(t0.kids_of(q).contains(x));
            if q == p {
                let k = choose|k: int| 0 <= k < t0.kids_of(p).len() && t0.kids_of(p)[k] == x;
                assert(t1.kids_of(p)[k] == x);
                assert(t1.kids_of(p).contains(x));
            } else {
                assert(t1.kids_of(q) == t0.kids_of(q));
            }
        }
    }
    assert forall|x: int|
        t1.ok(x) && #[trigger] t1.parent_of(x) == None::<int> implies t1.prev_of(x) == None::<int>
            && t1.next_of(x) == None::<int> by {
        assert(x != c);
        assert(t0.parent_of(x) == None::<int>);
        if t0.last_of(p).is_some() {
            let l = t0.last_of(p)->0;
            assert(t0.wf_list(p));
            assert(t0.kids_of(p).contains(t0.kids_of(p)[t0.kids_of(p).len() - 1]));
            assert(t0.parent_of(l) == Some(p));
            assert(x != l);
        }
        assert(t1.prev_of(x) == t0.prev_of(x));
        assert(t1.next_of(x) == t0.next_of(x));
    }
}

/// An append preserves well-formedness.
proof fn lemma_append_preserves_wf<T>(t0: Tree<T>, t1: Tree<T>, p: int, c: int)
    requires
        append_rel(t0, t1, p, c),
    ensures
        t1.wf(),
{
    lemma_append_wf_lists(t0, t1, p, c);
    lemma_append_wf_rest(t0, t1, p, c);
}

/// With enough fuel the ancestor chain no longer depends on the fuel.
proof fn lemma_anc_fuel_complete<T>(t: Tree<T>, i: int, f1: nat, f2: nat)
    requires
        t.wf(),
        t.ok(i),
        f1 >= t.depth_of(i),
        f2 >= t.depth_of(i),
    ensures
        t.anc_fuel(i, f1) == t.anc_fuel(i, f2),
    decreases t.depth_of(i),
{
    match t.parent_of(i) {
        None => {},
        Some(p) => {
            lemma_parent_ok(t, i);
            assert(t.kids_of(p).contains(i));
            let k = choose|k: int| 0 <= k < t.kids_of(p).len() && t.kids_of(p)[k] == i;
            assert(t.wf_list(p));
            assert(t.depth_of(i) == t.depth_of(p) + 1);
            assert(f1 >= 1 && f2 >= 1);
            lemma_anc_fuel_complete(t, p, (f1 - 1) as nat, (f2 - 1) as nat);
        },
    }
}

/// One step of the ancestor chain: a parentless node is its own whole chain;
/// otherwise the chain is the node followed by its parent's chain.
pub proof fn lemma_ancestors_unfold<T>(t: Tree<T>, i: int)
    requires
        t.wf(),
        t.ok(i),
    ensures
        t.parent_of(i) == None::<int> ==> t.ancestors(i) == seq![i],
        t.parent_of(i).is_some() ==> t.ancestors(i) == seq![i] + t.ancestors(t.parent_of(i)->0),
    decreases t.depth_of(i),
{
    match t.parent_of(i) {
        None => {},
        Some(p) => {
            lemma_parent_ok(t, i);
            assert(t.kids_of(p).contains(i));
            let k = choose|k: int| 0 <= k < t.kids_of(p).len() && t.kids_of(p)[k] == i;
            assert(t.wf_list(p));
            assert(t.depth_of(i) == t.depth_of(p) + 1);
            let h = (t.height_bound() + 1) as nat;
            assert(t.anc_fuel(i, h) == seq![i] + t.anc_fuel(p, (h - 1) as nat));
            lemma_anc_fuel_complete(t, p, (h - 1) as nat, h);
        },
    }
}

/// Every member of an ancestor chain is a node of the arena, no deeper than
/// the chain's start; the chain starts at its own argument.
pub proof fn lemma_ancestors_members<T>(t: Tree<T>, i: int)
    requires
        t.wf(),
        t.ok(i),
    ensures
        t.ancestors(i).len() >= 1,
        t.ancestors(i)[0] == i,
        t.ancestors(i).contains(i),
        forall|x: int| #[trigger]
            t.ancestors(i).contains(x) ==> t.ok(x) && t.depth_of(x) <= t.depth_of(i),
    decreases t.depth_of(i),
{
    lemma_ancestors_unfold(t, i);
    match t.parent_of(i) {
        None => {
            assert(t.ancestors(i) == seq![i]);
            assert(t.ancestors(i)[0] == i);
        },
        Some(p) => {
            lemma_parent_ok(t, i);
            assert(t.kids_of(p).contains(i));
            let k = choose|k: int| 0 <= k < t.kids_of(p).len() && t.kids_of(p)[k] == i;
            assert(t.wf_list(p));
            assert(t.depth_of(i) == t.depth_of(p) + 1);
            lemma_ancestors_members(t, p);
            assert(t.ancestors(i) == seq![i] + t.ancestors(p));
            assert forall|x: int| #[trigger] t.ancestors(i).contains(x) implies t.ok(x)
                && t.depth_of(x) <= t.depth_of(i) by {
                let j = choose|j: int|
                    0 <= j < t.ancestors(i).len() && t.ancestors(i)[j] == x;
                if j == 0 {
                } else {
                    assert(t.ancestors(p)[j - 1] == x);
                    assert(t.ancestors(p).contains(x));
                }
            }
            assert(t.ancestors(i)[0] == i);
        },
    }
}

/// Ancestor chains only depend on the parent links they pass through: if two
/// arenas agree on every parent link outside `excl`, and the chain of `i` in
/// the first arena avoids `excl`, the chains agree.
#[verifier::rlimit(100)]
#[verifier::spinoff_prover]
pub proof fn lemma_ancestors_same<T>(t1: Tree<T>, t2: Tree<T>, i: int, excl: Set<int>)
    requires
        t1.wf(),
        t2.wf(),
        t1.ok(i),
        forall|x: int| t1.ok(x) ==> t2.ok(x),
        forall|x: int|
            t1.ok(x) && !excl.contains(x) ==> #[trigger] t2.parent_of(x) == t1.parent_of(x),
        forall|x: int| #[trigger] t1.ancestors(i).contains(x) ==> !excl.contains(x),
    ensures
        t2.ancestors(i) == t1.ancestors(i),
    decreases t1.depth_of(i),
{
    lemma_ancestors_unfold(t1, i);
    lemma_ancestors_unfold(t2, i);
    lemma_ancestors_members(t1, i);
    assert(t1.ancestors(i).contains(i));
    assert(!excl.contains(i));
    assert(t2.parent_of(i) == t1.parent_of(i));
    match t1.parent_of(i) {
        None => {},
        Some(p) => {
            lemma_parent_ok(t1, i);
            assert(t1.kids_of(p).contains(i));
            let k = choose|k: int| 0 <= k < t1.kids_of(p).len() && t1.kids_of(p)[k] == i;
            assert(t1.wf_list(p));
            assert(t1.depth_of(i) == t1.depth_of(p) + 1);
            assert(t1.ancestors(i) == seq![i] + t1.ancestors(p));
            assert forall|x: int| #[trigger] t1.ancestors(p).contains(x) implies !excl.contains(
                x,
            ) by {
                let j = choose|j: int|
                    0 <= j < t1.ancestors(p).len() && t1.ancestors(p)[j] == x;
                assert(t1.ancestors(i)[j + 1] == x);
                assert(t1.ancestors(i).contains(x));
            }
            lemma_ancestors_same(t1, t2, p, excl);
        },
    }
}

/// The slot indices of a sequence of handles.
pub open spec fn ids(s: Seq<NodeId>) -> Seq<int> {
    s.map_values(|n: NodeId| n@)
}

/// The mathematical value of an optional handle.
pub open spec fn opt_view(o: Option<NodeId>) -> Option<int> {
    match o {
        Some(id) => Some(id@),
        None => None,
    }
}

/// Two arenas with the same size and the same links are equally well formed.
proof fn lemma_wf_same_links<T>(t1: Tree<T>, t2: Tree<T>)
    requires
        t1.wf(),
        t2.len() == t1.len(),
        t2.height_bound() == t1.height_bound(),
        forall|i: int| t1.ok(i) ==> #[trigger] t2.kids_of(i) == t1.kids_of(i),
        forall|i: int| t1.ok(i) ==> #[trigger] t2.parent_of(i) == t1.parent_of(i),
        forall|i: int| t1.ok(i) ==> #[trigger] t2.prev_of(i) == t1.prev_of(i),
        forall|i: int| t1.ok(i) ==> #[trigger] t2.next_of(i) == t1.next_of(i),
        forall|i: int| t1.ok(i) ==> #[trigger] t2.first_of(i) == t1.first_of(i),
        forall|i: int| t1.ok(i) ==> #[trigger] t2.last_of(i) == t1.last_of(i),
        forall|i: int| t1.ok(i) ==> #[trigger] t2.depth_of(i) == t1.depth_of(i),
    ensures
        t2.wf(),
{
    assert forall|i: int| t2.ok(i) implies #[trigger] t2.wf_list(i) by {
        assert(t1.wf_list(i));
        assert forall|k: int| 0 <= k < t2.kids_of(i).len() implies {
            let c = #[trigger] t2.kids_of(i)[k];
            &&& t2.ok(c)
            &&& t2.parent_of(c) == Some(i)
            &&& t2.depth_of(c) == t2.depth_of(i) + 1
            &&& t2.prev_of(c) == (if k == 0 {
                None::<int>
            } else {
                Some(t2.kids_of(i)[k - 1])
            })
            &&& t2.next_of(c) == (if k == t2.kids_of(i).len() - 1 {
                None::<int>
            } else {
                Some(t2.kids_of(i)[k + 1])
            })
        } by {
            let c = t2.kids_of(i)[k];
            assert(t1.kids_of(i)[k] == c);
            assert(t1.ok(c));
        }
    }
    assert forall|c: int|
        t2.ok(c) && (#[trigger] t2.parent_of(c)).is_some() implies {
            let p = t2.parent_of(c)->0;
            &&& t2.ok(p)
            &&& t2.kids_of(p).contains(c)
        } by {
        assert(t1.parent_of(c).is_some());
        let p = t1.parent_of(c)->0;
        assert(t1.kids_of(p).contains(c));
        assert(t2.kids_of(p) == t1.kids_of(p));
    }
}

/// In a well-formed arena a parent link always points at a node.
pub proof fn lemma_parent_ok<T>(t: Tree<T>, i: int)
    requires
        t.wf(),
        t.ok(i),
        t.parent_of(i).is_some(),
    ensures
        t.ok(t.parent_of(i)->0),
        t.kids_of(t.parent_of(i)->0).contains(i),
{
}

/// One subtree unfolding: a node's subtree is the node followed by the
/// forest of its children's subtrees.
#[verifier::spinoff_prover]
pub proof fn lemma_subtree_unfold<T>(t: Tree<T>, i: int)
    requires
        t.wf(),
        t.ok(i),
    ensures
        t.subtree(i) == seq![i] + t.forest_fuel(
            t.kids_of(i),
            (t.height_bound() - t.depth_of(i)) as nat,
        ),
{
    let fuel = (t.height_bound() + 1 - t.depth_of(i)) as nat;
    assert(0 <= t.depth_of(i) <= t.height_bound());
    assert(fuel >= 1);
    assert(t.sub_fuel(i, fuel) == seq![i] + t.forest_fuel(t.kids_of(i), (fuel - 1) as nat));
}

/// One step of a forest: the forest of one more child is the shorter forest
/// followed by that child's whole subtree.
#[verifier::rlimit(100)]
#[verifier::spinoff_prover]
proof fn lemma_forest_step<T>(t: Tree<T>, i: int, k: int)
    requires
        t.wf(),
        t.ok(i),
        0 <= k < t.kids_of(i).len(),
    ensures
        t.forest_fuel(
            t.kids_of(i).subrange(0, k + 1),
            (t.height_bound() - t.depth_of(i)) as nat,
        ) == t.forest_fuel(t.kids_of(i).subrange(0, k), (t.height_bound() - t.depth_of(i)) as nat)
            + t.subtree(t.kids_of(i)[k]),
{
    let ks = t.kids_of(i);
    let fuel_minus = (t.height_bound() - t.depth_of(i)) as nat;
    let c = ks[k];
    assert(t.wf_list(i));
    assert(t.kids_of(i)[k] == c);
    assert(t.ok(c));
    assert(t.depth_of(c) == t.depth_of(i) + 1);
    assert((t.height_bound() + 1 - t.depth_of(c)) as nat == fuel_minus);
    assert(t.subtree(c) == t.sub_fuel(c, fuel_minus));
    lemma_forest_snoc(t, ks.subrange(0, k + 1), fuel_minus);
    assert(ks.subrange(0, k + 1).drop_last() =~= ks.subrange(0, k));
    assert(ks.subrange(0, k + 1).last() == ks[k]);
}

/// Every member of a fueled subtree sequence is a node of the arena.
proof fn lemma_sub_fuel_members<T>(t: Tree<T>, i: int, fuel: nat)
    requires
        t.wf(),
        t.ok(i),
    ensures
        forall|x: int| #[trigger] t.sub_fuel(i, fuel).contains(x) ==> t.ok(x),
        t.sub_fuel(i, fuel).len() >= 1,
        t.sub_fuel(i, fuel)[0] == i,
    decreases fuel, 0nat,
{
    if fuel == 0 {
        assert forall|x: int| #[trigger] t.sub_fuel(i, fuel).contains(x) implies t.ok(x) by {
            let k = choose|k: int|
                0 <= k < t.sub_fuel(i, fuel).len() && t.sub_fuel(i, fuel)[k] == x;
            assert(x == i);
        }
    } else {
        let ks = t.kids_of(i);
        assert(t.wf_list(i));
        assert forall|j: int| 0 <= j < ks.len() implies t.ok(#[trigger] ks[j]) by {
            assert(t.kids_of(i)[j] == ks[j]);
        }
        lemma_forest_fuel_members(t, ks, (fuel - 1) as nat);
        assert forall|x: int| #[trigger] t.sub_fuel(i, fuel).contains(x) implies t.ok(x) by {
            let k = choose|k: int|
                0 <= k < t.sub_fuel(i, fuel).len() && t.sub_fuel(i, fuel)[k] == x;
            if k == 0 {
                assert(x == i);
            } else {
                assert(t.forest_fuel(ks, (fuel - 1) as nat)[k - 1] == x);
                assert(t.forest_fuel(ks, (fuel - 1) as nat).contains(x));
            }
        }
    }
}

/// Every member of a fueled forest sequence over valid roots is a node.
proof fn lemma_forest_fuel_members<T>(t: Tree<T>, l: Seq<int>, fuel: nat)
    requires
        t.wf(),
        forall|j: int| 0 <= j < l.len() ==> t.ok(#[trigger] l[j]),
    ensures
        forall|x: int| #[trigger] t.forest_fuel(l, fuel).contains(x) ==> t.ok(x),
    decreases fuel, l.len(),
{
    if l.len() > 0 {
        lemma_sub_fuel_members(t, l[0], fuel);
        let r = l.drop_first();
        assert forall|j: int| 0 <= j < r.len() implies t.ok(#[trigger] r[j]) by {
            assert(l[j + 1] == r[j]);
        }
        lemma_forest_fuel_members(t, r, fuel);
        assert forall|x: int| #[trigger] t.forest_fuel(l, fuel).contains(x) implies t.ok(x) by {
            let h = t.sub_fuel(l[0], fuel);
            let k = choose|k: int|
                0 <= k < t.forest_fuel(l, fuel).len() && t.forest_fuel(l, fuel)[k] == x;
            if k < h.len() {
                assert(h[k] == x);
                assert(h.contains(x));
            } else {
                assert(t.forest_fuel(r, fuel)[k - h.len()] == x);
                assert(t.forest_fuel(r, fuel).contains(x));
            }
        }
    }
}

/// Every member of a subtree is a node of the arena; the subtree starts at
/// its own root.
pub proof fn lemma_subtree_members<T>(t: Tree<T>, i: int)
    requires
        t.wf(),
        t.ok(i),
    ensures
        forall|x: int| #[trigger] t.subtree(i).contains(x) ==> t.ok(x),
        t.subtree(i).len() >= 1,
        t.subtree(i)[0] == i,
{
    lemma_sub_fuel_members(t, i, (t.height_bound() + 1 - t.depth_of(i)) as nat);
}

/// A forest sequence ending in one more root is the shorter forest followed
/// by that root's subtree.
proof fn lemma_forest_snoc<T>(t: Tree<T>, l: Seq<int>, fuel: nat)
    requires
        l.len() > 0,
    ensures
        t.forest_fuel(l, fuel) == t.forest_fuel(l.drop_last(), fuel) + t.sub_fuel(l.last(), fuel),
    decreases l.len(),
{
    if l.len() == 1 {
        assert(l.drop_last() =~= Seq::<int>::empty());
        assert(l.drop_first() =~= Seq::<int>::empty());
        assert(t.forest_fuel(l, fuel) == t.sub_fuel(l[0], fuel) + t.forest_fuel(
            l.drop_first(),
            fuel,
        ));
        assert(t.forest_fuel(l, fuel) =~= t.forest_fuel(l.drop_last(), fuel) + t.sub_fuel(
            l.last(),
            fuel,
        ));
    } else {
        let rest = l.drop_first();
        lemma_forest_snoc(t, rest, fuel);
        assert(rest.last() == l.last());
        assert(l.drop_last().drop_first() =~= rest.drop_last());
        assert(l.drop_last()[0] == l[0]);
        assert(l.drop_last().len() > 0);
        assert(t.forest_fuel(l, fuel) == t.sub_fuel(l[0], fuel) + t.forest_fuel(rest, fuel));
        assert(t.forest_fuel(l.drop_last(), fuel) == t.sub_fuel(l[0], fuel) + t.forest_fuel(
            rest.drop_last(),
            fuel,
        ));
        assert(t.forest_fuel(l, fuel) =~= t.forest_fuel(l.drop_last(), fuel) + t.sub_fuel(
            l.last(),
            fuel,
        ));
    }
}

/// In a well-formed arena slot 0 is a root: it has no parent.
pub proof fn lemma_root_parentless<T>(t: Tree<T>)
    requires
        t.wf(),
    ensures
        t.len() >= 1,
        t.parent_of(0) == None::<int>,
{
}

/// In a well-formed arena every node's links agree with its child list:
/// this exports the bridge between the link accessors and `kids_of`.
pub proof fn lemma_wf_links<T>(t: Tree<T>, p: int)
    requires
        t.wf(),
        t.ok(p),
    ensures
        t.wf_list(p),
{
}

/// In a well-formed arena a parentless node has no sibling links.
pub proof fn lemma_orphan_links<T>(t: Tree<T>, i: int)
    requires
        t.wf(),
        t.ok(i),
        t.parent_of(i) == None::<int>,
    ensures
        t.prev_of(i) == None::<int>,
        t.next_of(i) == None::<int>,
{
}

/// In a well-formed arena sibling links always point at nodes.
pub proof fn lemma_sibling_ok<T>(t: Tree<T>, i: int)
    requires
        t.wf(),
        t.ok(i),
    ensures
        t.next_of(i).is_some() ==> t.ok(t.next_of(i)->0),
        t.prev_of(i).is_some() ==> t.ok(t.prev_of(i)->0),
{
    if t.parent_of(i).is_some() {
        let p = t.parent_of(i)->0;
        assert(t.kids_of(p).contains(i));
        let k = choose|k: int| 0 <= k < t.kids_of(p).len() && t.kids_of(p)[k] == i;
        assert(t.wf_list(p));
        assert(t.kids_of(p)[k] == i);
    }
}

} // verus!
