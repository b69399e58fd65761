//! An append-only ordered tree of labelled nodes, addressed by node id.
//! A node's children are always added before it, so child ids are smaller.
use vstd::prelude::*;

verus! {

/// A label: an atom of the name table.
pub type Label = u32;

/// One node: its label and its children in order.
#[derive(Clone, Debug)]
pub struct TreeNode {
    pub label: Label,
    pub children: Vec<usize>,
}

/// A tree of nodes; node `n` is `nodes[n]`.
#[derive(Clone, Debug)]
pub struct Tree {
    pub nodes: Vec<TreeNode>,
}

/// The expression a node stands for: its label applied to its children.
pub enum Term {
    App(Label, Seq<Term>),
}

impl Term {
    pub open spec fn label(self) -> Label {
        match self {
            Term::App(l, _) => l,
        }
    }

    pub open spec fn args(self) -> Seq<Term> {
        match self {
            Term::App(_, a) => a,
        }
    }
}

impl Tree {
    pub open spec fn len(&self) -> nat {
        self.nodes@.len()
    }

    pub open spec fn label_of(&self, n: nat) -> Label {
        self.nodes@[n as int].label
    }

    pub open spec fn children_of(&self, n: nat) -> Seq<usize> {
        self.nodes@[n as int].children@
    }

    /// Every child id is smaller than its parent's.
    pub open spec fn wf(&self) -> bool {
        forall|n: int, k: int|
            0 <= n < self.nodes@.len() && 0 <= k < self.nodes@[n].children@.len() ==> (
            #[trigger] self.nodes@[n].children@[k]) < n
    }

    /// No node has more than 255 children.
    pub open spec fn narrow(&self) -> bool {
        forall|n: int| 0 <= n < self.nodes@.len() ==> (#[trigger] self.nodes@[n]).children@.len() <= 255
    }

    /// The term rooted at node `n`.
    pub open spec fn term_at(&self, n: nat) -> Term
        decreases n,
    {
        let c = self.children_of(n);
        Term::App(
            self.label_of(n),
            Seq::new(
                c.len(),
                |k: int|
                    if c[k] < n {
                        self.term_at(c[k] as nat)
                    } else {
                        Term::App(0, Seq::empty())
                    },
            ),
        )
    }
}

impl Tree {
    /// `self` holds the nodes of `prev` unchanged, possibly followed by more.
    pub open spec fn extends(&self, prev: &Tree) -> bool {
        &&& prev.len() <= self.len()
        &&& forall|i: int| 0 <= i < prev.nodes@.len() ==> #[trigger] self.nodes@[i] == prev.nodes@[i]
    }

    /// The empty tree.
    pub fn new() -> (r: Tree)
        ensures
            r.wf(),
            r.narrow(),
            r.len() == 0,
    {
        Tree { nodes: Vec::new() }
    }

    /// Number of nodes.
    pub fn size(&self) -> (r: usize)
        ensures
            r == self.len(),
    {
        self.nodes.len()
    }

    /// Adds a node with the given label and children, returning its id.
    pub fn add_node(&mut self, label: Label, children: Vec<usize>) -> (r: usize)
        requires
            old(self).wf(),
            forall|k: int| 0 <= k < children@.len() ==> #[trigger] children@[k] < old(self).len(),
        ensures
            old(self).narrow() && children@.len() <= 255 ==> final(self).narrow(),
            final(self).wf(),
            r == old(self).len(),
            final(self).len() == old(self).len() + 1,
            final(self).extends(old(self)),
            final(self).label_of(r as nat) == label,
            final(self).children_of(r as nat) == children@,
    {
        let r = self.nodes.len();
        self.nodes.push(TreeNode { label, children });
        proof {
            assert forall|n: int, k: int|
                0 <= n < self.nodes@.len() && 0 <= k < self.nodes@[n].children@.len() implies (
                #[trigger] self.nodes@[n].children@[k]) < n by {
                if n < r {
                    assert(self.nodes@[n] == old(self).nodes@[n]);
                }
            }
            if old(self).narrow() && self.nodes@[r as int].children@.len() <= 255 {
                assert forall|n: int| 0 <= n < self.nodes@.len() implies (#[trigger] self.nodes@[n]).children@.len() <= 255 by {
                    if n < r {
                        assert(self.nodes@[n] == old(self).nodes@[n]);
                    }
                }
            }
        }
        r
    }

    /// The label of node `n`.
    pub fn label(&self, n: usize) -> (r: Label)
        requires
            n < self.len(),
        ensures
            r == self.label_of(n as nat),
    {
        self.nodes[n].label
    }

    /// The children of node `n`, in order.
    pub fn children(&self, n: usize) -> (r: &Vec<usize>)
        requires
            n < self.len(),
        ensures
            r@ == self.children_of(n as nat),
    {
        &self.nodes[n].children
    }

    /// Whether node `n` has children.
    pub fn has_children(&self, n: usize) -> (r: bool)
        requires
            n < self.len(),
        ensures
            r == (self.children_of(n as nat).len() > 0),
    {
        self.nodes[n].children.len() > 0
    }

    /// Child `k` of node `n`, if it has that many.
    pub fn nth_child(&self, n: usize, k: usize) -> (r: Option<usize>)
        requires
            n < self.len(),
        ensures
            k < self.children_of(n as nat).len() ==> r == Some(self.children_of(n as nat)[k as int]),
            k >= self.children_of(n as nat).len() ==> r is None,
    {
        let c = &self.nodes[n].children;
        if k < c.len() {
            Some(c[k])
        } else {
            None
        }
    }
}

/// Children of a well-formed tree stand for the arguments of their parent.
pub proof fn lemma_term_args(t: &Tree, n: nat, k: int)
    requires
        t.wf(),
        n < t.len(),
        0 <= k < t.children_of(n).len(),
    ensures
        t.children_of(n)[k] < n,
        t.term_at(n).args().len() == t.children_of(n).len(),
        t.term_at(n).args()[k] == t.term_at(t.children_of(n)[k] as nat),
        t.term_at(n).label() == t.label_of(n),
{
    assert(t.nodes@[n as int].children@[k] < n);
}

/// Adding nodes leaves the terms of the existing nodes unchanged.
pub proof fn lemma_extends_term(t1: &Tree, t2: &Tree, n: nat)
    requires
        t1.wf(),
        t2.extends(t1),
        n < t1.len(),
    ensures
        t2.term_at(n) == t1.term_at(n),
    decreases n,
{
    assert(t2.nodes@[n as int] == t1.nodes@[n as int]);
    let c = t1.children_of(n);
    assert forall|k: int| 0 <= k < c.len() implies #[trigger] t2.term_at(n).args()[k]
        == t1.term_at(n).args()[k] by {
        assert(t1.nodes@[n as int].children@[k] < n);
        lemma_extends_term(t1, t2, c[k] as nat);
    }
    assert(t2.term_at(n).args() =~= t1.term_at(n).args());
}

} // verus!
