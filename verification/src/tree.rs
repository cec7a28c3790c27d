//! Parent/children hierarchy over entity handles.
//!
//! `register_node` inserts a new, parentless node; `append_child` links a
//! registered, still parentless child under a registered parent, appending
//! it to the parent's ordered child list. No removal or reparenting exists
//! in this core; restructuring requires rebuilding. The root is the first
//! node registered.

use vstd::prelude::*;

use crate::store::Entity;

verus! {

/// Structural misuse of the tree.
#[derive(Clone, Copy, PartialEq, Eq, Structural, Debug)]
pub enum TreeError {
    /// The child already has a parent.
    AlreadyParented,
    /// One of the endpoints was never registered.
    UnknownEntity,
}

struct Node {
    registered: bool,
    parent: Option<Entity>,
    children: Vec<Entity>,
}

/// How many times `e` occurs in `s`.
pub open spec fn occurrences(s: Seq<Entity>, e: Entity) -> nat
    decreases s.len(),
{
    if s.len() == 0 {
        0
    } else {
        occurrences(s.drop_last(), e) + if s.last() == e {
            1nat
        } else {
            0nat
        }
    }
}

pub proof fn lemma_occurrences_push(s: Seq<Entity>, x: Entity, e: Entity)
    ensures
        occurrences(s.push(x), e) == occurrences(s, e) + if x == e {
            1nat
        } else {
            0nat
        },
{
    assert(s.push(x).drop_last() =~= s);
}

/// Rooted hierarchy over entity handles, stored as a flat table indexed by
/// entity.
pub struct Tree {
    nodes: Vec<Node>,
    root: Option<Entity>,
}

impl Tree {
    /// Whether `e` has been registered.
    pub closed spec fn spec_contains(self, e: Entity) -> bool {
        e < self.nodes@.len() && self.nodes@[e as int].registered
    }

    /// The parent of `e`, if any.
    pub closed spec fn spec_parent(self, e: Entity) -> Option<Entity> {
        if e < self.nodes@.len() {
            self.nodes@[e as int].parent
        } else {
            None
        }
    }

    /// The children of `e`, in the order they were appended.
    pub closed spec fn spec_children(self, e: Entity) -> Seq<Entity> {
        if e < self.nodes@.len() {
            self.nodes@[e as int].children@
        } else {
            Seq::empty()
        }
    }

    /// The first node registered, if any.
    pub closed spec fn spec_root(self) -> Option<Entity> {
        self.root
    }

    /// Consistency of the hierarchy: a parent link exists exactly where the
    /// child occurs, exactly once, in that parent's child list; all
    /// endpoints are registered; the root is registered and present as soon
    /// as any node is.
    pub open spec fn wf(self) -> bool {
        &&& forall|c: Entity|
            (#[trigger] self.spec_parent(c)) is Some ==> self.spec_contains(c)
                && self.spec_contains(self.spec_parent(c)->Some_0)
        &&& forall|p: Entity, i: int|
            0 <= i < self.spec_children(p).len() ==> self.spec_contains(
                #[trigger] self.spec_children(p)[i],
            )
        &&& forall|e: Entity|
            !self.spec_contains(e) ==> #[trigger] self.spec_children(e) == Seq::<Entity>::empty()
        &&& forall|p: Entity, c: Entity|
            #[trigger] occurrences(self.spec_children(p), c) == if self.spec_parent(c) == Some(p) {
                1nat
            } else {
                0nat
            }
        &&& match self.spec_root() {
            Some(r) => self.spec_contains(r),
            None => forall|e: Entity| !self.spec_contains(e),
        }
    }

    pub fn new() -> (t: Tree)
        ensures
            t.wf(),
            forall|e: Entity| !t.spec_contains(e),
            t.spec_root() is None,
    {
        let t = Tree { nodes: Vec::new(), root: None };
        proof {
            assert forall|p: Entity, c: Entity|
                #[trigger] occurrences(t.spec_children(p), c) == 0nat by {
                assert(t.spec_children(p) == Seq::<Entity>::empty());
            }
        }
        t
    }

    pub fn contains(&self, e: Entity) -> (r: bool)
        ensures
            r == self.spec_contains(e),
    {
        e < self.nodes.len() && self.nodes[e].registered
    }

    pub fn parent(&self, e: Entity) -> (r: Option<Entity>)
        ensures
            r == self.spec_parent(e),
    {
        if e < self.nodes.len() {
            self.nodes[e].parent
        } else {
            None
        }
    }

    pub fn root(&self) -> (r: Option<Entity>)
        ensures
            r == self.spec_root(),
    {
        self.root
    }

    /// A copy of `e`'s ordered child list; empty when `e` is unregistered.
    pub fn children(&self, e: Entity) -> (v: Vec<Entity>)
        ensures
            v@ == self.spec_children(e),
    {
        let mut v: Vec<Entity> = Vec::new();
        if e >= self.nodes.len() {
            proof {
                assert(v@ =~= self.spec_children(e));
            }
            return v;
        }
        let ghost cs = self.spec_children(e);
        let n = &self.nodes[e];
        let mut i: usize = 0;
        while i < n.children.len()
            invariant
                i <= cs.len(),
                e < self.nodes@.len(),
                n == &self.nodes@[e as int],
                n.children@ == cs,
                v@ == cs.take(i as int),
            decreases cs.len() - i,
        {
            v.push(n.children[i]);
            proof {
                assert(cs.take(i as int).push(cs[i as int]) =~= cs.take(i as int + 1));
            }
            i = i + 1;
        }
        proof {
            assert(cs.take(cs.len() as int) =~= cs);
        }
        v
    }

    /// Inserts a new, parentless node for `e`. The first node registered is
    /// designated as the root.
    pub fn register_node(&mut self, e: Entity)
        requires
            old(self).wf(),
            !old(self).spec_contains(e),
        ensures
            final(self).wf(),
            final(self).spec_contains(e),
            forall|x: Entity|
                x != e ==> #[trigger] final(self).spec_contains(x) == old(self).spec_contains(x),
            forall|x: Entity| #[trigger] final(self).spec_parent(x) == old(self).spec_parent(x),
            forall|x: Entity| #[trigger] final(self).spec_children(x) == old(self).spec_children(x),
            final(self).spec_root() == if old(self).spec_root() is None {
                Some(e)
            } else {
                old(self).spec_root()
            },
    {
        while self.nodes.len() <= e
            invariant
                old(self).nodes@.len() <= self.nodes@.len(),
                self.root == old(self).root,
                forall|j: int|
                    0 <= j < old(self).nodes@.len() ==> self.nodes@[j] == old(self).nodes@[j],
                forall|j: int|
                    old(self).nodes@.len() <= j < self.nodes@.len() ==> {
                        &&& !(#[trigger] self.nodes@[j]).registered
                        &&& self.nodes@[j].parent is None
                        &&& self.nodes@[j].children@ == Seq::<Entity>::empty()
                    },
            decreases e + 1 - self.nodes.len(),
        {
            let blank = Node { registered: false, parent: None, children: Vec::new() };
            self.nodes.push(blank);
        }
        proof {
            // The slot for `e` is still blank: it either was just pushed, or
            // existed unregistered, in which case well-formedness already
            // forces an empty child list and no parent.
            assert(old(self).spec_children(e) == Seq::<Entity>::empty());
            assert(old(self).spec_parent(e) is None) by {
                if old(self).spec_parent(e) is Some {
                    assert(old(self).spec_contains(e));
                }
            }
            assert(self.nodes@[e as int].parent is None);
            assert(self.nodes@[e as int].children@ == Seq::<Entity>::empty());
        }
        let slot = &mut self.nodes[e];
        slot.registered = true;
        if self.root.is_none() {
            self.root = Some(e);
        }
        proof {
            let newt = *self;
            let oldt = *old(self);
            assert forall|x: Entity| #[trigger] newt.spec_children(x) == oldt.spec_children(x) by {
                if x < oldt.nodes@.len() {
                } else if x < newt.nodes@.len() {
                    assert(newt.spec_children(x) == Seq::<Entity>::empty());
                    assert(oldt.spec_children(x) == Seq::<Entity>::empty());
                }
            }
            assert forall|x: Entity| #[trigger] newt.spec_parent(x) == oldt.spec_parent(x) by {
                if x < oldt.nodes@.len() {
                } else if x < newt.nodes@.len() {
                    assert(newt.spec_parent(x) is None);
                    if oldt.spec_parent(x) is Some {
                        assert(oldt.spec_contains(x));
                    }
                }
            }
            assert forall|p: Entity, c: Entity|
                #[trigger] occurrences(newt.spec_children(p), c) == if newt.spec_parent(c) == Some(
                    p,
                ) {
                    1nat
                } else {
                    0nat
                } by {
                assert(occurrences(oldt.spec_children(p), c) == if oldt.spec_parent(c) == Some(p) {
                    1nat
                } else {
                    0nat
                });
            }
        }
    }

    /// Sets `child`'s parent to `parent` and appends `child` to `parent`'s
    /// ordered child list. Fails with `UnknownEntity` when either endpoint
    /// is unregistered and with `AlreadyParented` when `child` already has a
    /// parent; a failed call leaves the tree unchanged.
    pub fn append_child(&mut self, parent: Entity, child: Entity) -> (r: Result<(), TreeError>)
        requires
            old(self).wf(),
        ensures
            final(self).wf(),
            !(old(self).spec_contains(parent) && old(self).spec_contains(child)) ==> r == Err::<
                (),
                TreeError,
            >(TreeError::UnknownEntity) && *final(self) == *old(self),
            old(self).spec_contains(parent) && old(self).spec_contains(child) && old(
                self,
            ).spec_parent(child) is Some ==> r == Err::<(), TreeError>(TreeError::AlreadyParented)
                && *final(self) == *old(self),
            old(self).spec_contains(parent) && old(self).spec_contains(child) && old(
                self,
            ).spec_parent(child) is None ==> {
                &&& r == Ok::<(), TreeError>(())
                &&& final(self).spec_parent(child) == Some(parent)
                &&& final(self).spec_children(parent) == old(self).spec_children(parent).push(
                    child,
                )
                &&& forall|x: Entity|
                    x != child ==> #[trigger] final(self).spec_parent(x) == old(self).spec_parent(
                        x,
                    )
                &&& forall|x: Entity|
                    x != parent ==> #[trigger] final(self).spec_children(x) == old(
                        self,
                    ).spec_children(x)
                &&& forall|x: Entity|
                    #[trigger] final(self).spec_contains(x) == old(self).spec_contains(x)
                &&& final(self).spec_root() == old(self).spec_root()
            },
    {
        if !self.contains(parent) || !self.contains(child) {
            return Err(TreeError::UnknownEntity);
        }
        if self.nodes[child].parent.is_some() {
            return Err(TreeError::AlreadyParented);
        }
        let child_slot = &mut self.nodes[child];
        child_slot.parent = Some(parent);
        let parent_slot = &mut self.nodes[parent];
        parent_slot.children.push(child);
        proof {
            let newt = *self;
            let oldt = *old(self);
            assert(newt.spec_parent(child) == Some(parent));
            assert(newt.spec_children(parent) == oldt.spec_children(parent).push(child));
            assert(occurrences(oldt.spec_children(parent), child) == 0nat);
            assert forall|x: Entity| #[trigger] newt.spec_contains(x) == oldt.spec_contains(
                x,
            ) by {}
            assert forall|x: Entity| x != child implies #[trigger] newt.spec_parent(x)
                == oldt.spec_parent(x) by {}
            assert forall|x: Entity| x != parent implies #[trigger] newt.spec_children(x)
                == oldt.spec_children(x) by {}
            assert forall|c2: Entity| (#[trigger] newt.spec_parent(c2)) is Some implies
                newt.spec_contains(c2) && newt.spec_contains(newt.spec_parent(c2)->Some_0) by {
                if c2 != child {
                    assert(newt.spec_parent(c2) == oldt.spec_parent(c2));
                }
            }
            assert forall|e2: Entity| !newt.spec_contains(e2) implies #[trigger] newt.spec_children(
                e2,
            ) == Seq::<Entity>::empty() by {
                assert(e2 != parent);
                assert(newt.spec_children(e2) == oldt.spec_children(e2));
            }
            assert(newt.spec_root() == oldt.spec_root());
            assert forall|p: Entity, c: Entity|
                #[trigger] occurrences(newt.spec_children(p), c) == if newt.spec_parent(c) == Some(
                    p,
                ) {
                    1nat
                } else {
                    0nat
                } by {
                assert(occurrences(oldt.spec_children(p), c) == if oldt.spec_parent(c) == Some(p) {
                    1nat
                } else {
                    0nat
                });
                if p == parent {
                    lemma_occurrences_push(oldt.spec_children(parent), child, c);
                }
            }
            assert forall|p: Entity, i: int|
                0 <= i < newt.spec_children(p).len() implies newt.spec_contains(
                #[trigger] newt.spec_children(p)[i],
            ) by {
                if p == parent && i == newt.spec_children(p).len() - 1 {
                } else {
                    assert(newt.spec_children(p)[i] == oldt.spec_children(p)[i]);
                }
            }
        }
        Ok(())
    }
}

/// Law: under a well-formed tree, a child occurs exactly once in its
/// parent's ordered child list, and never in any other entity's list.
pub proof fn lemma_parent_child_consistency(t: Tree, p: Entity, c: Entity)
    requires
        t.wf(),
    ensures
        t.spec_parent(c) == Some(p) ==> occurrences(t.spec_children(p), c) == 1,
        t.spec_parent(c) != Some(p) ==> occurrences(t.spec_children(p), c) == 0,
{
}

} // verus!
