//! Parsed formulas: typed trees with variable nodes, structural equality,
//! unification against a pattern, and substitution.
use vstd::prelude::*;
use std::collections::HashMap;
use std::sync::Arc;
use crate::bitset::Bitset;
use crate::database::Database;
use crate::verify::ByteRange;
use crate::verify::range_in;
use crate::verify::range_bytes;
use crate::verify::StatementAddress;
use crate::tree::Label;
use crate::tree::Term;
use crate::tree::Tree;
use crate::tree::lemma_extends_term;
use crate::tree::lemma_term_args;

verus! {

broadcast use vstd::std_specs::hash::group_hash_axioms;

/// An atom naming a typecode.
pub type TypeCode = u32;

/// Relies on `Arc::clone`: the new handle points at the same tree.
#[verifier::external_body]
fn share_tree(t: &Arc<Tree>) -> (r: Arc<Tree>)
    ensures
        r == *t,
{
    Arc::clone(t)
}

/// An error occurring during unification.
#[derive(Clone, Copy, Debug, PartialEq, Eq, Structural)]
pub enum UnificationError {
    /// The formula does not match the pattern.
    UnificationFailed,
}

/// A parsed formula: a typecode, a shared tree, the node that is its root,
/// and the set of nodes that are variables.
#[derive(Clone, Debug)]
pub struct Formula {
    typecode: TypeCode,
    tree: Arc<Tree>,
    root: usize,
    variables: Bitset,
}

impl Formula {
    /// The tree is well formed and holds the root.
    pub closed spec fn wf(&self) -> bool {
        &&& self.tree.wf()
        &&& self.tree.narrow()
        &&& self.root < self.tree.len()
        &&& self.variables.wf()
    }

    /// The term the formula stands for.
    pub closed spec fn term(&self) -> Term {
        self.tree.term_at(self.root as nat)
    }

    /// The typecode of the formula.
    pub closed spec fn typecode(&self) -> TypeCode {
        self.typecode
    }

    /// Whether node `n` is a variable.
    pub closed spec fn is_var(&self, n: nat) -> bool {
        self.variables@.contains(n)
    }

    /// Whether the root is a variable.
    pub closed spec fn root_is_var(&self) -> bool {
        self.is_var(self.root as nat)
    }

    /// The term at node `n` once each variable node whose label `sigma`
    /// binds is replaced by its binding.
    pub closed spec fn subst_at(&self, n: nat, sigma: Map<Label, Term>) -> Term
        decreases n,
    {
        let c = self.tree.children_of(n);
        if self.is_var(n) && sigma.contains_key(self.tree.label_of(n)) {
            sigma[self.tree.label_of(n)]
        } else {
            Term::App(
                self.tree.label_of(n),
                Seq::new(
                    c.len(),
                    |k: int|
                        if c[k] < n {
                            self.subst_at(c[k] as nat, sigma)
                        } else {
                            Term::App(0, Seq::empty())
                        },
                ),
            )
        }
    }

    /// The whole formula under `sigma`.
    pub closed spec fn subst_term(&self, sigma: Map<Label, Term>) -> Term {
        self.subst_at(self.root as nat, sigma)
    }

    /// A formula made of a single variable.
    pub fn from_float(label: Label, typecode: TypeCode) -> (r: Formula)
        ensures
            r.wf(),
            r.term() == Term::App(label, Seq::empty()),
            r.pattern() == Pat::Node(label, true, Seq::empty()),
            r.labels() == seq![(label, true)],
            forall|db: Database| #[trigger] r.sexpr(&db) == db.name(label),
            r.root_is_var(),
            r.typecode() == typecode,
    {
        let mut tree = Tree::new();
        let root = tree.add_node(label, Vec::new());
        let mut variables = Bitset::new();
        variables.set_bit(root);
        proof {
            assert(tree.term_at(root as nat).args() =~= Seq::<Term>::empty());
            match pat_in(&tree, variables@, root as nat) {
                Pat::Node(_, _, a) => {
                    assert(a =~= Seq::<Pat>::empty());
                },
            }
        }
        let r = Formula { typecode, tree: Arc::new(tree), root, variables };
        proof {
            assert(r.labels_from(root as nat, 0) =~= Seq::<(Label, bool)>::empty());
            assert(r.labels() =~= seq![(label, true)]);
        }
        r
    }

    /// The typecode of the formula.
    pub fn get_typecode(&self) -> (r: TypeCode)
        ensures
            r == self.typecode(),
    {
        self.typecode
    }

    /// Whether the formula is a single token.
    pub fn is_singleton(&self) -> (r: bool)
        requires
            self.wf(),
        ensures
            r == (self.term().args().len() == 0),
    {
        !self.tree.has_children(self.root)
    }

    /// Whether node `n` is a variable.
    fn is_variable(&self, n: usize) -> (r: bool)
        ensures
            r == self.is_var(n as nat),
    {
        self.variables.has_bit(n)
    }

    /// A copy of the formula, sharing its tree.
    pub fn duplicate(&self) -> (r: Formula)
        ensures
            r.wf() == self.wf(),
            r.term() == self.term(),
            r.typecode() == self.typecode(),
            forall|n: nat| r.is_var(n) == self.is_var(n),
    {
        Formula {
            typecode: self.typecode,
            tree: share_tree(&self.tree),
            root: self.root,
            variables: self.variables.duplicate(),
        }
    }

    /// The sub-formula rooted at node `n`, sharing the tree.
    fn sub_formula(&self, n: usize) -> (r: Formula)
        requires
            self.wf(),
            n < self.tree.len(),
        ensures
            r.wf(),
            r.term() == self.tree.term_at(n as nat),
            r.typecode() == self.typecode(),
    {
        Formula {
            typecode: self.typecode,
            tree: share_tree(&self.tree),
            root: n,
            variables: self.variables.duplicate(),
        }
    }
}

/// A set of substitutions: each label maps to the formula that replaces it.
/// `keys` lists the labels of `map` once each, so that the set can be walked.
#[derive(Clone, Debug)]
pub struct Substitutions {
    map: HashMap<Label, Formula>,
    keys: Vec<Label>,
}

impl Substitutions {
    /// Keys are listed exactly once and every formula is well formed.
    pub closed spec fn wf(&self) -> bool {
        &&& self.keys@.no_duplicates()
        &&& forall|k: Label| #[trigger] self.map@.contains_key(k) <==> self.keys@.contains(k)
        &&& forall|k: Label| #[trigger] self.map@.contains_key(k) ==> self.map@[k].wf()
    }

    /// Each label with the term of its formula.
    pub closed spec fn view(&self) -> Map<Label, Term> {
        Map::new(|k: Label| self.map@.contains_key(k), |k: Label| self.map@[k].term())
    }

    /// Each label with the flagged term of its formula.
    pub closed spec fn pview(&self) -> Map<Label, Pat> {
        Map::new(|k: Label| self.map@.contains_key(k), |k: Label| self.map@[k].pattern())
    }

    /// Each label with the typecode of its formula.
    pub closed spec fn typecodes(&self) -> Map<Label, TypeCode> {
        Map::new(|k: Label| self.map@.contains_key(k), |k: Label| self.map@[k].typecode())
    }

    /// The empty set of substitutions.
    pub fn new() -> (r: Substitutions)
        ensures
            r.wf(),
            r@ == Map::<Label, Term>::empty(),
            r.pview() == Map::<Label, Pat>::empty(),
    {
        let r = Substitutions { map: HashMap::new(), keys: Vec::new() };
        proof {
            assert(r@ =~= Map::<Label, Term>::empty());
            assert(r.pview() =~= Map::<Label, Pat>::empty());
        }
        r
    }

    /// Binds `label` to `formula`, returning the formula it was bound to before.
    pub fn insert(&mut self, label: Label, formula: Formula) -> (r: Option<Formula>)
        requires
            old(self).wf(),
            formula.wf(),
        ensures
            final(self).wf(),
            final(self)@ == old(self)@.insert(label, formula.term()),
            final(self).pview() == old(self).pview().insert(label, formula.pattern()),
            final(self).typecodes() == old(self).typecodes().insert(label, formula.typecode()),
            match r {
                Some(f) => old(self)@.contains_key(label) && f.term() == old(self)@[label],
                None => !old(self)@.contains_key(label),
            },
    {
        let r = self.map.insert(label, formula);
        match &r {
            Some(_) => {},
            None => {
                self.keys.push(label);
            },
        }
        proof {
            if r is None {
                assert(!old(self).keys@.contains(label));
                assert(self.keys@ =~= old(self).keys@.push(label));
                assert forall|k: Label| self.keys@.contains(k) <==> (old(self).keys@.contains(k) || k == label) by {
                    if self.keys@.contains(k) {
                        let i = self.keys@.index_of(k);
                        if i < old(self).keys@.len() {
                            assert(old(self).keys@[i] == k);
                        }
                    }
                    if old(self).keys@.contains(k) {
                        let i = old(self).keys@.index_of(k);
                        assert(self.keys@[i] == k);
                    }
                    if k == label {
                        assert(self.keys@[old(self).keys@.len() as int] == k);
                    }
                }
                assert forall|x: int, y: int| 0 <= x < self.keys@.len() && 0 <= y < self.keys@.len() && x != y implies self.keys@[x] != self.keys@[y] by {
                    if x == old(self).keys@.len() {
                        assert(old(self).keys@.contains(self.keys@[y]));
                    } else if y == old(self).keys@.len() {
                        assert(old(self).keys@.contains(self.keys@[x]));
                    }
                }
            }
            assert forall|k: Label| #[trigger] self.map@.contains_key(k) <==> self.keys@.contains(k) by {
                assert(old(self).map@.contains_key(k) <==> old(self).keys@.contains(k));
            }
            assert forall|k: Label| #[trigger] self.map@.contains_key(k) implies self.map@[k].wf() by {
                if k != label {
                    assert(old(self).map@.contains_key(k));
                }
            }
            assert(self@ =~= old(self)@.insert(label, formula.term()));
            assert(self.pview() =~= old(self).pview().insert(label, formula.pattern()));
            assert(self.typecodes() =~= old(self).typecodes().insert(label, formula.typecode()));
        }
        r
    }

    /// The formula that `label` is bound to.
    pub fn get(&self, label: Label) -> (r: Option<&Formula>)
        requires
            self.wf(),
        ensures
            match r {
                Some(f) => self@.contains_key(label) && f.term() == self@[label] && f.wf()
                    && self.pview().contains_key(label) && self.pview()[label] == f.pattern(),
                None => !self@.contains_key(label) && !self.pview().contains_key(label),
            },
    {
        self.map.get(&label)
    }

    /// Adds all the bindings of `other`, which win over those of `self`.
    pub fn extend(&mut self, other: &Substitutions)
        requires
            old(self).wf(),
            other.wf(),
        ensures
            final(self).wf(),
            final(self)@ == old(self)@.union_prefer_right(other@),
    {
        let mut i: usize = 0;
        while i < other.keys.len()
            invariant
                self.wf(),
                other.wf(),
                i <= other.keys@.len(),
                self@ == old(self)@.union_prefer_right(
                    other@.restrict(other.keys@.take(i as int).to_set()),
                ),
            decreases other.keys@.len() - i,
        {
            let k = other.keys[i];
            proof {
                assert(other.keys@.contains(k));
            }
            match other.get(k) {
                Some(f) => {
                    let g = f.duplicate();
                    self.insert(k, g);
                },
                None => {},
            }
            proof {
                lemma_take_one_more(other.keys@, i as int);
                assert(self@ =~= old(self)@.union_prefer_right(
                    other@.restrict(other.keys@.take(i + 1).to_set()),
                ));
            }
            i = i + 1;
        }
        proof {
            assert(other.keys@.take(i as int) =~= other.keys@);
            assert forall|k: Label| other@.contains_key(k) implies other.keys@.to_set().contains(k) by {
                assert(other.map@.contains_key(k));
            }
            assert(other@.restrict(other.keys@.to_set()) =~= other@);
        }
    }

    /// The bindings, each label once, in no particular order.
    pub fn iter(&self) -> (r: Vec<(Label, Formula)>)
        requires
            self.wf(),
        ensures
            r@.len() == self@.dom().len(),
            forall|i: int, j: int| 0 <= i < j < r@.len() ==> r@[i].0 != r@[j].0,
            forall|i: int|
                0 <= i < r@.len() ==> self@.contains_key((#[trigger] r@[i]).0) && r@[i].1.term()
                    == self@[r@[i].0],
            forall|k: Label| self@.contains_key(k) ==> exists|i: int| 0 <= i < r@.len() && (#[trigger] r@[i]).0 == k,
    {
        let mut out: Vec<(Label, Formula)> = Vec::new();
        let mut i: usize = 0;
        while i < self.keys.len()
            invariant
                self.wf(),
                i <= self.keys@.len(),
                out@.len() == i,
                forall|j: int| 0 <= j < i ==> (#[trigger] out@[j]).0 == self.keys@[j],
                forall|j: int|
                    0 <= j < i ==> self@.contains_key((#[trigger] out@[j]).0) && out@[j].1.term()
                        == self@[out@[j].0],
            decreases self.keys@.len() - i,
        {
            let k = self.keys[i];
            proof {
                assert(self.keys@.contains(k));
            }
            match self.get(k) {
                Some(f) => {
                    out.push((k, f.duplicate()));
                },
                None => {},
            }
            i = i + 1;
        }
        proof {
            assert(self@.dom() =~= self.keys@.to_set());
            self.keys@.unique_seq_to_set();
            assert forall|k: Label| self@.contains_key(k) implies exists|j: int| 0 <= j < out@.len() && (#[trigger] out@[j]).0 == k by {
                assert(self.keys@.contains(k));
                let j = self.keys@.index_of(k);
                assert(out@[j].0 == k);
            }
        }
        out
    }
}

/// Taking one more element of a sequence adds it to the set taken.
proof fn lemma_take_one_more(s: Seq<Label>, i: int)
    requires
        0 <= i < s.len(),
    ensures
        s.take(i + 1).to_set() == s.take(i).to_set().insert(s[i]),
{
    assert forall|x: Label| s.take(i + 1).to_set().contains(x) <==> s.take(i).to_set().insert(
        s[i],
    ).contains(x) by {
        if s.take(i + 1).contains(x) {
            let j = s.take(i + 1).index_of(x);
            if j < i {
                assert(s.take(i)[j] == x);
            }
        }
        if s.take(i).contains(x) {
            let j = s.take(i).index_of(x);
            assert(s.take(i + 1)[j] == x);
        }
        if x == s[i] {
            assert(s.take(i + 1)[i] == x);
        }
    }
    assert(s.take(i + 1).to_set() =~= s.take(i).to_set().insert(s[i]));
}

/// Appends `src[start..end]` to `target`.
fn append_ids(target: &mut Vec<usize>, src: &Vec<usize>, start: usize, end: usize)
    requires
        start <= end <= src@.len(),
    ensures
        final(target)@ == old(target)@ + src@.subrange(start as int, end as int),
{
    let ghost pre = target@;
    let mut i: usize = start;
    while i < end
        invariant
            start <= i <= end <= src@.len(),
            target@ == pre + src@.subrange(start as int, i as int),
        decreases end - i,
    {
        target.push(src[i]);
        proof {
            assert(src@.subrange(start as int, i + 1) =~= src@.subrange(start as int, i as int).push(
                src@[i as int],
            ));
        }
        i = i + 1;
    }
}

/// Builds a formula bottom-up: each reduction turns stacked sub-formulas
/// into the children of a new node.
pub struct FormulaBuilder {
    stack: Vec<usize>,
    variables: Bitset,
    tree: Tree,
}

impl FormulaBuilder {
    /// Every stacked node exists in the tree.
    pub closed spec fn wf(&self) -> bool {
        &&& self.tree.wf()
        &&& self.tree.narrow()
        &&& self.variables.wf()
        &&& forall|i: int| 0 <= i < self.stack@.len() ==> #[trigger] self.stack@[i] < self.tree.len()
        &&& forall|x: nat| #[trigger] self.variables@.contains(x) ==> x < self.tree.len()
    }

    /// The flagged terms of the stacked nodes, bottom first.
    pub closed spec fn stack_pats(&self) -> Seq<Pat> {
        Seq::new(self.stack@.len(), |i: int| pat_in(&self.tree, self.variables@, self.stack@[i] as nat))
    }

    /// The terms of the stacked nodes, bottom first.
    pub closed spec fn stack_terms(&self) -> Seq<Term> {
        Seq::new(self.stack@.len(), |i: int| self.tree.term_at(self.stack@[i] as nat))
    }

    /// An empty builder.
    pub fn new() -> (r: FormulaBuilder)
        ensures
            r.wf(),
            r.stack_terms() == Seq::<Term>::empty(),
            r.stack_pats() == Seq::<Pat>::empty(),
    {
        let r = FormulaBuilder { stack: Vec::new(), variables: Bitset::new(), tree: Tree::new() };
        proof {
            assert(r.stack_terms() =~= Seq::<Term>::empty());
            assert(r.stack_pats() =~= Seq::<Pat>::empty());
        }
        r
    }

    /// Replaces the `var_count` stacked items that lie below the top `offset`
    /// ones by a new node labelled `label` having them as children; the node
    /// is marked a variable when `is_variable` holds.
    pub fn reduce(&mut self, label: Label, var_count: u8, offset: u8, is_variable: bool)
        requires
            old(self).wf(),
            old(self).stack_terms().len() >= var_count + offset,
        ensures
            final(self).wf(),
            ({
                let len = old(self).stack_terms().len() as int;
                let start = len - var_count - offset;
                let end = len - offset;
                let ts = old(self).stack_terms();
                final(self).stack_terms() == ts.subrange(0, start).push(
                    Term::App(label, ts.subrange(start, end)),
                ) + ts.subrange(end, len)
            }),
            ({
                let len = old(self).stack_terms().len() as int;
                let start = len - var_count - offset;
                let end = len - offset;
                let ps = old(self).stack_pats();
                final(self).stack_pats() == ps.subrange(0, start).push(
                    Pat::Node(label, is_variable, ps.subrange(start, end)),
                ) + ps.subrange(end, len)
            }),
    {
        let ghost old_pats = self.stack_pats();
        let ghost v0 = self.variables@;
        let ghost old_terms = self.stack_terms();
        let len = self.stack.len();
        let start = len - (var_count as usize + offset as usize);
        let end = len - offset as usize;
        let mut children: Vec<usize> = Vec::new();
        append_ids(&mut children, &self.stack, start, end);
        let ghost t0 = self.tree;
        let id = self.tree.add_node(label, children);
        if is_variable {
            self.variables.set_bit(id);
        }
        let mut ns: Vec<usize> = Vec::new();
        append_ids(&mut ns, &self.stack, 0, start);
        ns.push(id);
        append_ids(&mut ns, &self.stack, end, len);
        let ghost old_stack = self.stack@;
        self.stack = ns;
        proof {
            assert(!v0.contains(id as nat));
            assert forall|x: nat| x < t0.len() implies (v0.contains(x) == self.variables@.contains(x)) by {}
            assert forall|x: nat| #[trigger] self.variables@.contains(x) implies x < self.tree.len() by {
                if x != id {
                    assert(v0.contains(x));
                }
            }
            assert forall|i: int| 0 <= i < old_stack.len() implies pat_in(&self.tree, self.variables@, old_stack[i] as nat)
                == pat_in(&t0, v0, old_stack[i] as nat) by {
                lemma_extends_pat(&t0, v0, &self.tree, self.variables@, old_stack[i] as nat);
            }
            match pat_in(&self.tree, self.variables@, id as nat) {
                Pat::Node(_, _, a) => {
                    assert forall|k: int| 0 <= k < end - start implies #[trigger] a[k] == old_pats[start + k] by {
                        assert(self.tree.nodes@[id as int].children@[k] < id);
                    }
                    assert(a =~= old_pats.subrange(start as int, end as int));
                },
            }
            assert(self.stack_pats() =~= old_pats.subrange(0, start as int).push(
                Pat::Node(label, is_variable, old_pats.subrange(start as int, end as int)),
            ) + old_pats.subrange(end as int, len as int));
            assert forall|i: int| 0 <= i < old_stack.len() implies self.tree.term_at(old_stack[i] as nat)
                == t0.term_at(old_stack[i] as nat) by {
                lemma_extends_term(&t0, &self.tree, old_stack[i] as nat);
            }
            let nt = self.tree.term_at(id as nat);
            assert forall|k: int| 0 <= k < end - start implies #[trigger] nt.args()[k] == old_terms[start + k] by {
                lemma_term_args(&self.tree, id as nat, k);
            }
            assert(nt.args() =~= old_terms.subrange(start as int, end as int));
            assert(self.stack_terms() =~= old_terms.subrange(0, start as int).push(
                Term::App(label, old_terms.subrange(start as int, end as int)),
            ) + old_terms.subrange(end as int, len as int));
        }
    }

    /// The formula of the single stacked item.
    pub fn build(self, typecode: TypeCode) -> (r: Formula)
        requires
            self.wf(),
            self.stack_terms().len() == 1,
        ensures
            r.wf(),
            r.term() == self.stack_terms()[0],
            r.pattern() == self.stack_pats()[0],
            r.typecode() == typecode,
    {
        let root = self.stack[0];
        Formula { typecode, tree: Arc::new(self.tree), root, variables: self.variables }
    }
}

impl Formula {
    /// Pushes a copy of the sub-formula at node `n` onto the builder.
    fn copy_sub_formula(&self, n: usize, builder: &mut FormulaBuilder)
        requires
            self.wf(),
            n < self.tree.len(),
            old(builder).wf(),
        ensures
            final(builder).wf(),
            final(builder).stack_terms() == old(builder).stack_terms().push(self.tree.term_at(n as nat)),
            final(builder).stack_pats() == old(builder).stack_pats().push(self.pat_at(n as nat)),
        decreases n,
    {
        let children = self.tree.children(n);
        let ghost ts0 = builder.stack_terms();
        let ghost ps0 = builder.stack_pats();
        let mut j: usize = 0;
        while j < children.len()
            invariant
                self.wf(),
                n < self.tree.len(),
                children@ == self.tree.children_of(n as nat),
                j <= children@.len(),
                builder.wf(),
                builder.stack_terms() == ts0 + Seq::new(j as nat, |k: int| self.tree.term_at(children@[k] as nat)),
                builder.stack_pats() == ps0 + Seq::new(j as nat, |k: int| self.pat_at(children@[k] as nat)),
            decreases children@.len() - j,
        {
            proof {
                lemma_term_args(&self.tree, n as nat, j as int);
            }
            self.copy_sub_formula(children[j], builder);
            proof {
                assert(builder.stack_terms() =~= ts0 + Seq::new((j + 1) as nat, |k: int| self.tree.term_at(children@[k] as nat)));
                assert(builder.stack_pats() =~= ps0 + Seq::new((j + 1) as nat, |k: int| self.pat_at(children@[k] as nat)));
            }
            j = j + 1;
        }
        let ghost ts1 = builder.stack_terms();
        let ghost ps1 = builder.stack_pats();
        proof {
            assert(self.tree.nodes@[n as int].children@.len() <= 255);
        }
        builder.reduce(self.tree.label(n), j as u8, 0, self.is_variable(n));
        proof {
            let t = self.tree.term_at(n as nat);
            assert forall|k: int| 0 <= k < j implies #[trigger] t.args()[k] == ts1[ts0.len() + k] by {
                lemma_term_args(&self.tree, n as nat, k);
            }
            assert(ts1.subrange(ts0.len() as int, ts1.len() as int) =~= t.args());
            assert(ts1.subrange(0, ts0.len() as int) =~= ts0);
            assert(builder.stack_terms() =~= ts0.push(t));
            match self.pat_at(n as nat) {
                Pat::Node(l, v, a) => {
                    assert forall|k: int| 0 <= k < j implies #[trigger] a[k] == ps1[ps0.len() + k] by {
                        lemma_term_args(&self.tree, n as nat, k);
                    }
                    assert(ps1.subrange(ps0.len() as int, ps1.len() as int) =~= a);
                },
            }
            assert(ps1.subrange(0, ps0.len() as int) =~= ps0);
            assert(builder.stack_pats() =~= ps0.push(self.pat_at(n as nat)));
        }
    }

    /// Pushes the sub-formula at node `n`, with substitutions applied, onto
    /// the builder.
    fn sub_substitute(&self, n: usize, substitutions: &Substitutions, builder: &mut FormulaBuilder)
        requires
            self.wf(),
            n < self.tree.len(),
            substitutions.wf(),
            old(builder).wf(),
        ensures
            final(builder).wf(),
            final(builder).stack_terms() == old(builder).stack_terms().push(
                self.subst_at(n as nat, substitutions@),
            ),
            final(builder).stack_pats() == old(builder).stack_pats().push(
                pat_psubst(self.pat_at(n as nat), substitutions.pview()),
            ),
        decreases n,
    {
        if self.is_variable(n) {
            match substitutions.get(self.tree.label(n)) {
                Some(formula) => {
                    formula.copy_sub_formula(formula.root, builder);
                    proof {
                        assert(substitutions.pview().contains_key(self.tree.label_of(n as nat)));
                        assert(self.is_var(n as nat));
                    }
                    return;
                },
                None => {},
            }
        }
        let children = self.tree.children(n);
        let ghost ts0 = builder.stack_terms();
        let ghost ps0 = builder.stack_pats();
        let ghost sigma = substitutions@;
        let ghost pv = substitutions.pview();
        let mut j: usize = 0;
        while j < children.len()
            invariant
                self.wf(),
                n < self.tree.len(),
                substitutions.wf(),
                sigma == substitutions@,
                children@ == self.tree.children_of(n as nat),
                j <= children@.len(),
                builder.wf(),
                builder.stack_terms() == ts0 + Seq::new(j as nat, |k: int| self.subst_at(children@[k] as nat, sigma)),
                pv == substitutions.pview(),
                builder.stack_pats() == ps0 + Seq::new(j as nat, |k: int| pat_psubst(self.pat_at(children@[k] as nat), pv)),
            decreases children@.len() - j,
        {
            proof {
                lemma_term_args(&self.tree, n as nat, j as int);
            }
            self.sub_substitute(children[j], substitutions, builder);
            proof {
                assert(builder.stack_terms() =~= ts0 + Seq::new((j + 1) as nat, |k: int| self.subst_at(children@[k] as nat, sigma)));
                assert(builder.stack_pats() =~= ps0 + Seq::new((j + 1) as nat, |k: int| pat_psubst(self.pat_at(children@[k] as nat), pv)));
            }
            j = j + 1;
        }
        let ghost ts1 = builder.stack_terms();
        let ghost ps1 = builder.stack_pats();
        proof {
            assert(self.tree.nodes@[n as int].children@.len() <= 255);
        }
        builder.reduce(self.tree.label(n), j as u8, 0, self.is_variable(n));
        proof {
            let t = self.subst_at(n as nat, sigma);
            assert forall|k: int| 0 <= k < j implies #[trigger] t.args()[k] == ts1[ts0.len() + k] by {
                lemma_term_args(&self.tree, n as nat, k);
            }
            assert(ts1.subrange(ts0.len() as int, ts1.len() as int) =~= t.args());
            assert(ts1.subrange(0, ts0.len() as int) =~= ts0);
            assert(builder.stack_terms() =~= ts0.push(t));
            match self.pat_at(n as nat) {
                Pat::Node(l, v, a) => {
                    assert(!(v && pv.contains_key(l)));
                    match pat_psubst(self.pat_at(n as nat), pv) {
                        Pat::Node(_, _, b) => {
                            assert forall|k: int| 0 <= k < j implies #[trigger] b[k] == ps1[ps0.len() + k] by {
                                lemma_term_args(&self.tree, n as nat, k);
                            }
                            assert(ps1.subrange(ps0.len() as int, ps1.len() as int) =~= b);
                        },
                    }
                },
            }
            assert(ps1.subrange(0, ps0.len() as int) =~= ps0);
            assert(builder.stack_pats() =~= ps0.push(pat_psubst(self.pat_at(n as nat), pv)));
        }
    }

    /// A new formula where each variable bound by `substitutions` is replaced
    /// by its formula. The typecode is kept.
    pub fn substitute(&self, substitutions: &Substitutions) -> (r: Formula)
        requires
            self.wf(),
            substitutions.wf(),
        ensures
            r.wf(),
            r.term() == self.subst_term(substitutions@),
            r.pattern() == pat_psubst(self.pattern(), substitutions.pview()),
            r.typecode() == self.typecode(),
    {
        let mut builder = FormulaBuilder::new();
        self.sub_substitute(self.root, substitutions, &mut builder);
        proof {
            assert(builder.stack_terms().len() == 1);
        }
        builder.build(self.typecode)
    }
}

impl Formula {
    /// Every variable node reached from node `n` without passing below a
    /// variable has its label bound in `sigma`.
    pub closed spec fn bound_at(&self, n: nat, sigma: Map<Label, Term>) -> bool
        decreases n,
    {
        if self.is_var(n) {
            sigma.contains_key(self.tree.label_of(n))
        } else {
            forall|k: int|
                0 <= k < self.tree.children_of(n).len() ==> (#[trigger] self.tree.children_of(n)[k]
                    < n ==> self.bound_at(self.tree.children_of(n)[k] as nat, sigma))
        }
    }

    /// `k` is the label of some variable node of the formula's tree.
    pub closed spec fn var_label(&self, k: Label) -> bool {
        exists|v: nat| v < self.tree.len() && self.is_var(v) && #[trigger] self.tree.label_of(v) == k
    }

    /// Once the variables under node `n` are bound, further bindings change
    /// nothing there.
    proof fn lemma_bound_stable(&self, n: nat, s1: Map<Label, Term>, s2: Map<Label, Term>)
        requires
            self.wf(),
            n < self.tree.len(),
            self.bound_at(n, s1),
            s1.submap_of(s2),
        ensures
            self.bound_at(n, s2),
            self.subst_at(n, s1) == self.subst_at(n, s2),
        decreases n,
    {
        if !self.is_var(n) {
            let c = self.tree.children_of(n);
            assert forall|k: int| 0 <= k < c.len() implies #[trigger] self.subst_at(n, s1).args()[k]
                == self.subst_at(n, s2).args()[k] && self.bound_at(c[k] as nat, s2) by {
                lemma_term_args(&self.tree, n, k);
                self.lemma_bound_stable(c[k] as nat, s1, s2);
            }
            assert(self.subst_at(n, s1).args() =~= self.subst_at(n, s2).args());
            assert forall|k: int| 0 <= k < c.len() implies (#[trigger] c[k] < n ==> self.bound_at(c[k] as nat, s2)) by {
                lemma_term_args(&self.tree, n, k);
                self.lemma_bound_stable(c[k] as nat, s1, s2);
            }
        } else {
            assert(s2.contains_key(self.tree.label_of(n)));
        }
    }

    /// Whether the sub-formula at `n` equals the sub-formula of `other` at
    /// `on`: same labels, same number of children, equal children.
    fn sub_eq(&self, n: usize, other: &Formula, on: usize) -> (r: bool)
        requires
            self.wf(),
            other.wf(),
            n < self.tree.len(),
            on < other.tree.len(),
        ensures
            r == (self.tree.term_at(n as nat) == other.tree.term_at(on as nat)),
        decreases n,
    {
        let c = self.tree.children(n);
        let oc = other.tree.children(on);
        if self.tree.label(n) != other.tree.label(on) || c.len() != oc.len() {
            proof {
                if c@.len() != oc@.len() {
                    assert(self.tree.term_at(n as nat).args().len() != other.tree.term_at(on as nat).args().len());
                }
            }
            return false;
        }
        let mut k: usize = 0;
        while k < c.len()
            invariant
                self.wf(),
                other.wf(),
                n < self.tree.len(),
                on < other.tree.len(),
                c@ == self.tree.children_of(n as nat),
                oc@ == other.tree.children_of(on as nat),
                c@.len() == oc@.len(),
                k <= c@.len(),
                forall|j: int| 0 <= j < k ==> #[trigger] self.tree.term_at(n as nat).args()[j] == other.tree.term_at(on as nat).args()[j],
            decreases c@.len() - k,
        {
            proof {
                lemma_term_args(&self.tree, n as nat, k as int);
                lemma_term_args(&other.tree, on as nat, k as int);
            }
            if !self.sub_eq(c[k], other, oc[k]) {
                return false;
            }
            k = k + 1;
        }
        proof {
            assert(self.tree.term_at(n as nat).args() =~= other.tree.term_at(on as nat).args());
        }
        true
    }

    /// Structural equality of two formulas.
    pub fn equals(&self, other: &Formula) -> (r: bool)
        requires
            self.wf(),
            other.wf(),
        ensures
            r == (self.term() == other.term()),
    {
        self.sub_eq(self.root, other, other.root)
    }

    /// Unifies the sub-formula at `n` with the sub-formula of the pattern
    /// `other` at `on`, adding bindings to `substitutions`.
    #[verifier::spinoff_prover]
    fn sub_unify(
        &self,
        n: usize,
        other: &Formula,
        on: usize,
        substitutions: &mut Substitutions,
    ) -> (r: Result<(), UnificationError>)
        requires
            self.wf(),
            other.wf(),
            n < self.tree.len(),
            on < other.tree.len(),
            old(substitutions).wf(),
        ensures
            final(substitutions).wf(),
            old(substitutions)@.submap_of(final(substitutions)@),
            forall|k: Label|
                #[trigger] final(substitutions)@.contains_key(k) && !old(substitutions)@.contains_key(k)
                    ==> other.var_label(k),
            r is Ok ==> {
                &&& old(substitutions)@.submap_of(final(substitutions)@)
                &&& other.bound_at(on as nat, final(substitutions)@)
                &&& other.subst_at(on as nat, final(substitutions)@) == self.tree.term_at(n as nat)
            },
            forall|s: Map<Label, Term>|
                old(substitutions)@.submap_of(s) && other.bound_at(on as nat, s) && #[trigger] other.subst_at(
                    on as nat,
                    s,
                ) == self.tree.term_at(n as nat) ==> r is Ok && final(substitutions)@.submap_of(s),
        decreases on,
    {
        let ghost s_init = substitutions@;
        if other.is_variable(on) {
            let l = other.tree.label(on);
            match substitutions.get(l) {
                Some(formula) => {
                    proof {
                        assert forall|s: Map<Label, Term>|
                            s_init.submap_of(s) && other.bound_at(on as nat, s) && #[trigger] other.subst_at(
                                on as nat,
                                s,
                            ) == self.tree.term_at(n as nat) implies formula.term() == self.tree.term_at(n as nat) by {
                            assert(s_init.dom().contains(l));
                        }
                    }
                    if self.sub_eq(n, formula, formula.root) {
                        Ok(())
                    } else {
                        Err(UnificationError::UnificationFailed)
                    }
                },
                None => {
                    let f = self.sub_formula(n);
                    substitutions.insert(l, f);
                    proof {
                        assert forall|s: Map<Label, Term>|
                            s_init.submap_of(s) && other.bound_at(on as nat, s) && #[trigger] other.subst_at(
                                on as nat,
                                s,
                            ) == self.tree.term_at(n as nat) implies substitutions@.submap_of(s) by {
                            assert forall|key: Label| #[trigger] substitutions@.dom().contains(key) implies s.dom().contains(key)
                                && substitutions@[key] == s[key] by {
                                if key != l {
                                    assert(s_init.dom().contains(key));
                                }
                            }
                        }
                        assert forall|key: Label| #[trigger] s_init.dom().contains(key) implies substitutions@.dom().contains(key)
                            && substitutions@[key] == s_init[key] by {
                        }
                    }
                    Ok(())
                },
            }
        } else {
            let c = self.tree.children(n);
            let oc = other.tree.children(on);
            if self.tree.label(n) != other.tree.label(on) || c.len() != oc.len() {
                proof {
                    assert forall|s: Map<Label, Term>|
                        s_init.submap_of(s) && other.bound_at(on as nat, s) && #[trigger] other.subst_at(
                            on as nat,
                            s,
                        ) == self.tree.term_at(n as nat) implies false by {
                        assert(other.subst_at(on as nat, s).args().len() == oc@.len());
                    }
                }
                return Err(UnificationError::UnificationFailed);
            }
            let mut k: usize = 0;
            while k < oc.len()
                invariant
                    self.wf(),
                    other.wf(),
                    n < self.tree.len(),
                    on < other.tree.len(),
                    !other.is_var(on as nat),
                    c@ == self.tree.children_of(n as nat),
                    oc@ == other.tree.children_of(on as nat),
                    c@.len() == oc@.len(),
                    k <= c@.len(),
                    substitutions.wf(),
                    s_init == old(substitutions)@,
                    s_init.submap_of(substitutions@),
                    forall|key: Label|
                        #[trigger] substitutions@.contains_key(key) && !s_init.contains_key(key)
                            ==> other.var_label(key),
                    forall|j: int| 0 <= j < k ==> other.bound_at(#[trigger] oc@[j] as nat, substitutions@)
                        && other.subst_at(oc@[j] as nat, substitutions@) == self.tree.term_at(c@[j] as nat),
                    forall|s: Map<Label, Term>|
                        s_init.submap_of(s) && other.bound_at(on as nat, s) && #[trigger] other.subst_at(
                            on as nat,
                            s,
                        ) == self.tree.term_at(n as nat) ==> substitutions@.submap_of(s),
                decreases c@.len() - k,
            {
                proof {
                    lemma_term_args(&self.tree, n as nat, k as int);
                    lemma_term_args(&other.tree, on as nat, k as int);
                }
                let ghost s0 = substitutions@;
                proof {
                    assert forall|s: Map<Label, Term>|
                        s_init.submap_of(s) && other.bound_at(on as nat, s) && #[trigger] other.subst_at(
                            on as nat,
                            s,
                        ) == self.tree.term_at(n as nat) implies s0.submap_of(s) && other.bound_at(oc@[k as int] as nat, s)
                            && other.subst_at(oc@[k as int] as nat, s) == self.tree.term_at(c@[k as int] as nat) by {
                        assert(other.subst_at(on as nat, s).args()[k as int] == self.tree.term_at(n as nat).args()[k as int]);
                        assert(oc@[k as int] == other.tree.children_of(on as nat)[k as int]);
                    }
                }
                let res = self.sub_unify(c[k], other, oc[k], substitutions);
                proof {
                    assert forall|key: Label| #[trigger] s_init.dom().contains(key) implies substitutions@.dom().contains(key)
                        && substitutions@[key] == s_init[key] by {
                        assert(s0.dom().contains(key));
                        assert(substitutions@.dom().contains(key));
                    }
                    assert forall|key: Label|
                        #[trigger] substitutions@.contains_key(key) && !s_init.contains_key(key)
                            implies other.var_label(key) by {
                        if s0.contains_key(key) {
                        }
                    }
                }
                match res {
                    Ok(()) => {},
                    Err(e) => {
                        proof {
                            assert forall|s: Map<Label, Term>|
                                s_init.submap_of(s) && other.bound_at(on as nat, s) && #[trigger] other.subst_at(
                                    on as nat,
                                    s,
                                ) == self.tree.term_at(n as nat) implies false by {
                                assert(other.subst_at(oc@[k as int] as nat, s) == self.tree.term_at(c@[k as int] as nat));
                            }
                        }
                        return Err(e);
                    },
                }
                proof {
                    assert forall|j: int| 0 <= j < k implies other.bound_at(#[trigger] oc@[j] as nat, substitutions@)
                        && other.subst_at(oc@[j] as nat, substitutions@) == self.tree.term_at(c@[j] as nat) by {
                        lemma_term_args(&other.tree, on as nat, j);
                        other.lemma_bound_stable(oc@[j] as nat, s0, substitutions@);
                    }
                }
                k = k + 1;
            }
            proof {
                let sigma = substitutions@;
                let t = other.subst_at(on as nat, sigma);
                assert forall|j: int| 0 <= j < c@.len() implies #[trigger] t.args()[j] == self.tree.term_at(n as nat).args()[j] by {
                    lemma_term_args(&self.tree, n as nat, j);
                    lemma_term_args(&other.tree, on as nat, j);
                }
                assert(t.args() =~= self.tree.term_at(n as nat).args());
                assert forall|j: int| 0 <= j < oc@.len() implies (#[trigger] other.tree.children_of(on as nat)[j] < on ==> other.bound_at(other.tree.children_of(on as nat)[j] as nat, sigma)) by {
                    assert(other.bound_at(oc@[j] as nat, sigma));
                }
            }
            Ok(())
        }
    }

    /// Unifies this formula with the pattern `other`. It succeeds exactly
    /// when some extension of the bindings in `substitutions` binds every
    /// variable of the pattern and turns it into this formula; the bindings
    /// left in `substitutions` are then the least such extension.
    pub fn unify(&self, other: &Formula, substitutions: &mut Substitutions) -> (r: Result<(), UnificationError>)
        requires
            self.wf(),
            other.wf(),
            old(substitutions).wf(),
        ensures
            final(substitutions).wf(),
            old(substitutions)@.submap_of(final(substitutions)@),
            forall|k: Label|
                #[trigger] final(substitutions)@.contains_key(k) && !old(substitutions)@.contains_key(k)
                    ==> other.var_label(k),
            (r is Ok) == (exists|s: Map<Label, Term>| self.unifies_under(other, old(substitutions)@, s)),
            r is Ok ==> self.unifies_under(other, old(substitutions)@, final(substitutions)@),
            forall|s: Map<Label, Term>|
                #[trigger] self.unifies_under(other, old(substitutions)@, s) ==> final(substitutions)@.submap_of(s),
    {
        let r = self.sub_unify(self.root, other, other.root, substitutions);
        proof {
            if r is Ok {
                assert(self.unifies_under(other, old(substitutions)@, substitutions@));
            }
            assert forall|s: Map<Label, Term>| #[trigger] self.unifies_under(other, old(substitutions)@, s) implies r is Ok && substitutions@.submap_of(s) by {
                assert(other.subst_at(other.root as nat, s) == self.tree.term_at(self.root as nat));
            }
        }
        r
    }

    /// `s` extends `sigma0`, binds every variable of `pattern`, and turns
    /// `pattern` into this formula.
    pub open spec fn unifies_under(&self, pattern: &Formula, sigma0: Map<Label, Term>, s: Map<Label, Term>) -> bool {
        &&& sigma0.submap_of(s)
        &&& pattern.binds_variables(s)
        &&& pattern.subst_term(s) == self.term()
    }
}

impl Formula {
    /// `sigma` binds every variable of the formula.
    pub closed spec fn binds_variables(&self, sigma: Map<Label, Term>) -> bool {
        self.bound_at(self.root as nat, sigma)
    }
}

/// Substituting into a formula and unifying the result against the formula
/// itself, starting from no bindings, succeeds; the bindings found agree with
/// the substitution.
pub proof fn lemma_substitute_then_unify(f: &Formula, sigma: Map<Label, Term>, g: &Formula)
    requires
        f.wf(),
        f.binds_variables(sigma),
        g.term() == f.subst_term(sigma),
    ensures
        g.unifies_under(f, Map::empty(), sigma),
{
    assert(Map::<Label, Term>::empty().submap_of(sigma));
}

/// When unification succeeds, the pattern under the bindings found is the
/// unified formula.
pub proof fn lemma_unify_sound(
    a: &Formula,
    b: &Formula,
    sigma0: Map<Label, Term>,
    sigma: Map<Label, Term>,
    c: &Formula,
)
    requires
        a.unifies_under(b, sigma0, sigma),
        c.term() == b.subst_term(sigma),
    ensures
        c.term() == a.term(),
{
}

/// Formula equality is reflexive, symmetric and transitive.
pub proof fn lemma_equality_equivalence(a: &Formula, b: &Formula, c: &Formula)
    ensures
        a.term() == a.term(),
        a.term() == b.term() ==> b.term() == a.term(),
        a.term() == b.term() && b.term() == c.term() ==> a.term() == c.term(),
{
}

/// The label reached by following `path` from the root of `t`, each step
/// giving the index of the child to enter.
pub open spec fn label_by_path(t: Term, path: Seq<usize>) -> Option<Label>
    decreases path.len(),
{
    if path.len() == 0 {
        Some(t.label())
    } else if path[0] < t.args().len() {
        label_by_path(t.args()[path[0] as int], path.drop_first())
    } else {
        None
    }
}

/// A source of fresh work variables, used to bind variables that
/// unification left free.
pub trait WorkVariableProvider<E> {
    /// The requests answered so far, each label with what came back.
    closed spec fn requests(&self) -> Seq<(Label, Result<(TypeCode, Label), E>)> {
        Seq::empty()
    }

    /// A new work variable, with its typecode, to stand for `label`.
    fn new_work_variable(&mut self, label: Label) -> (r: Result<(TypeCode, Label), E>)
        ensures
            final(self).requests() == old(self).requests().push((label, r)),
    ;
}

/// The work variables granted by a sequence of answered requests: each
/// label with the typecode and work variable of its successful answer.
pub open spec fn grants<E>(rec: Seq<(Label, Result<(TypeCode, Label), E>)>) -> Map<Label, (TypeCode, Label)>
    decreases rec.len(),
{
    if rec.len() == 0 {
        Map::empty()
    } else {
        match rec.last().1 {
            Ok(v) => grants(rec.drop_last()).insert(rec.last().0, v),
            Err(_) => grants(rec.drop_last()),
        }
    }
}

/// Every request of `rec` was answered with a work variable.
pub open spec fn all_granted<E>(rec: Seq<(Label, Result<(TypeCode, Label), E>)>) -> bool {
    forall|i: int| 0 <= i < rec.len() ==> (#[trigger] rec[i]).1 is Ok
}

/// The labels of a sequence of requests.
pub open spec fn requested<E>(rec: Seq<(Label, Result<(TypeCode, Label), E>)>) -> Seq<Label> {
    Seq::new(rec.len(), |i: int| rec[i].0)
}

proof fn lemma_grants_concat<E>(a: Seq<(Label, Result<(TypeCode, Label), E>)>, b: Seq<(Label, Result<(TypeCode, Label), E>)>)
    ensures
        grants(a + b) == grants(a).union_prefer_right(grants(b)),
    decreases b.len(),
{
    if b.len() == 0 {
        assert(a + b =~= a);
        assert(grants(a).union_prefer_right(grants(b)) =~= grants(a));
    } else {
        assert((a + b).drop_last() =~= a + b.drop_last());
        lemma_grants_concat(a, b.drop_last());
        match b.last().1 {
            Ok(v) => {
                assert(grants(a + b) =~= grants(a).union_prefer_right(grants(b)));
            },
            Err(_) => {},
        }
    }
}

proof fn lemma_grants_dom<E>(a: Seq<(Label, Result<(TypeCode, Label), E>)>)
    requires
        all_granted(a),
    ensures
        forall|l: Label| #[trigger] grants(a).contains_key(l) <==> requested(a).contains(l),
    decreases a.len(),
{
    if a.len() > 0 {
        assert forall|i: int| 0 <= i < a.drop_last().len() implies (#[trigger] a.drop_last()[i]).1 is Ok by {
            assert(a[i].1 is Ok);
        }
        lemma_grants_dom(a.drop_last());
        assert(a[a.len() - 1].1 is Ok);
        assert(a.last() == a[a.len() - 1]);
        let v = a.last().1->Ok_0;
        assert(grants(a) == grants(a.drop_last()).insert(a.last().0, v));
        assert forall|l: Label| #[trigger] grants(a).contains_key(l) <==> requested(a).contains(l) by {
            assert(grants(a).contains_key(l) <==> (grants(a.drop_last()).contains_key(l) || l == a.last().0));
            assert(grants(a.drop_last()).contains_key(l) <==> requested(a.drop_last()).contains(l));
            if requested(a).contains(l) {
                let i = choose|i: int| 0 <= i < requested(a).len() && requested(a)[i] == l;
                if i < a.len() - 1 {
                    assert(requested(a.drop_last())[i] == l);
                }
            }
            if requested(a.drop_last()).contains(l) {
                let i = choose|i: int| 0 <= i < requested(a.drop_last()).len() && requested(a.drop_last())[i] == l;
                assert(requested(a)[i] == l);
            }
            if l == a.last().0 {
                assert(requested(a)[a.len() - 1] == l);
            }
        }
    }
}

impl Formula {
    /// The labels that completion requests work variables for, walking from
    /// node `n` depth first with `b` already bound: each free variable
    /// label once, at its first occurrence. For `k <= ` the number of
    /// children, only the requests of the first `k` children.
    pub closed spec fn wanted_from(&self, n: nat, k: nat, b: Set<Label>) -> Seq<Label>
        decreases n, k,
    {
        let c = self.tree.children_of(n);
        if k > c.len() {
            if self.is_var(n) {
                if b.contains(self.tree.label_of(n)) {
                    Seq::empty()
                } else {
                    seq![self.tree.label_of(n)]
                }
            } else {
                self.wanted_from(n, c.len(), b)
            }
        } else if k == 0 {
            Seq::empty()
        } else {
            let prev = self.wanted_from(n, (k - 1) as nat, b);
            prev + if c[k - 1] < n {
                self.wanted_from(c[k - 1] as nat, self.tree.children_of(c[k - 1] as nat).len() + 1, b.union(prev.to_set()))
            } else {
                Seq::empty()
            }
        }
    }

    /// The labels completion requests work variables for, in order, when
    /// the labels of `b` are already bound.
    pub closed spec fn work_requests(&self, b: Set<Label>) -> Seq<Label> {
        self.wanted_from(self.root as nat, self.tree.children_of(self.root as nat).len() + 1, b)
    }

    proof fn lemma_wanted_prefix(&self, n: nat, j: nat, k: nat, b: Set<Label>)
        requires
            j <= k <= self.tree.children_of(n).len(),
        ensures
            self.wanted_from(n, j, b).len() <= self.wanted_from(n, k, b).len(),
            self.wanted_from(n, k, b).subrange(0, self.wanted_from(n, j, b).len() as int) == self.wanted_from(n, j, b),
        decreases k - j,
    {
        if j < k {
            self.lemma_wanted_prefix(n, j, (k - 1) as nat, b);
            let a = self.wanted_from(n, (k - 1) as nat, b);
            let w = self.wanted_from(n, j, b);
            assert(self.wanted_from(n, k, b).subrange(0, a.len() as int) =~= a);
            assert(self.wanted_from(n, k, b).subrange(0, w.len() as int) =~= a.subrange(0, w.len() as int));
        } else {
            assert(self.wanted_from(n, k, b).subrange(0, self.wanted_from(n, j, b).len() as int) =~= self.wanted_from(n, j, b));
        }
    }

    /// The label reached by following `path` from the root.
    pub fn get_by_path(&self, path: &[usize]) -> (r: Option<Label>)
        requires
            self.wf(),
        ensures
            r == label_by_path(self.term(), path@),
    {
        let mut node = self.root;
        let mut i: usize = 0;
        proof {
            assert(path@.skip(0) =~= path@);
        }
        while i < path.len()
            invariant
                self.wf(),
                node < self.tree.len(),
                i <= path@.len(),
                label_by_path(self.term(), path@) == label_by_path(self.tree.term_at(node as nat), path@.skip(i as int)),
            decreases path@.len() - i,
        {
            proof {
                assert(path@.skip(i as int).drop_first() =~= path@.skip(i + 1));
                if path@[i as int] < self.tree.children_of(node as nat).len() {
                    lemma_term_args(&self.tree, node as nat, path@[i as int] as int);
                }
            }
            match self.tree.nth_child(node, path[i]) {
                Some(c) => {
                    proof {
                        assert(self.tree.nodes@[node as int].children@[path@[i as int] as int] < node);
                    }
                    node = c;
                },
                None => {
                    return None;
                },
            }
            i = i + 1;
        }
        Some(self.tree.label(node))
    }

    /// Binds each variable of the sub-formula at `n` that `substitutions`
    /// leaves free to a fresh work variable.
    #[verifier::spinoff_prover]
    fn sub_complete_substitutions<E, W: WorkVariableProvider<E>>(
        &self,
        n: usize,
        substitutions: &mut Substitutions,
        wvp: &mut W,
    ) -> (r: Result<(), E>)
        requires
            self.wf(),
            n < self.tree.len(),
            old(substitutions).wf(),
        ensures
            final(substitutions).wf(),
            old(substitutions)@.submap_of(final(substitutions)@),
            forall|k: Label|
                #[trigger] final(substitutions)@.contains_key(k) && !old(substitutions)@.contains_key(k)
                    ==> final(substitutions)@[k].args().len() == 0 && self.var_label(k),
            r is Ok ==> self.bound_at(n as nat, final(substitutions)@),
            self.bound_at(n as nat, old(substitutions)@) ==> r is Ok && final(substitutions)@ == old(substitutions)@,
            ({
                let r0 = old(wvp).requests();
                let rs = final(wvp).requests();
                let nw = rs.subrange(r0.len() as int, rs.len() as int);
                let want = self.wanted_from(n as nat, self.tree.children_of(n as nat).len() + 1, old(substitutions)@.dom());
                &&& r0.len() <= rs.len()
                &&& rs.subrange(0, r0.len() as int) == r0
                &&& nw.len() <= want.len()
                &&& requested(nw) == want.subrange(0, nw.len() as int)
                &&& forall|i: int| 0 <= i < nw.len() - 1 ==> (#[trigger] nw[i]).1 is Ok
                &&& r is Ok ==> nw.len() == want.len() && all_granted(nw)
                &&& r matches Err(e) ==> nw.len() > 0 && nw.last().1 == Err::<(TypeCode, Label), E>(e)
                &&& forall|l: Label| #[trigger] final(substitutions)@.contains_key(l)
                    == (old(substitutions)@.contains_key(l) || grants(nw).contains_key(l))
                &&& forall|l: Label| #[trigger] grants(nw).contains_key(l) ==> {
                    &&& final(substitutions)@[l] == Term::App(grants(nw)[l].1, Seq::empty())
                    &&& final(substitutions).pview()[l] == Pat::Node(grants(nw)[l].1, true, Seq::empty())
                    &&& final(substitutions).typecodes()[l] == grants(nw)[l].0
                }
                &&& forall|l: Label| #[trigger] old(substitutions)@.contains_key(l) ==> final(substitutions).pview()[l] == old(substitutions).pview()[l]
                    && final(substitutions).typecodes()[l] == old(substitutions).typecodes()[l]
            }),
        decreases n,
    {
        let ghost s_init = substitutions@;
        let ghost r0 = wvp.requests();
        if self.is_variable(n) {
            let label = self.tree.label(n);
            match substitutions.get(label) {
                Some(_) => {
                    proof {
                        assert(wvp.requests().subrange(0, r0.len() as int) =~= r0);
                        assert(wvp.requests().subrange(r0.len() as int, wvp.requests().len() as int) =~= Seq::<(Label, Result<(TypeCode, Label), E>)>::empty());
                        assert(requested(Seq::<(Label, Result<(TypeCode, Label), E>)>::empty()) =~= Seq::<Label>::empty());
                    }
                },
                None => {
                    let res = wvp.new_work_variable(label);
                    proof {
                        let rs = wvp.requests();
                        let nw = rs.subrange(r0.len() as int, rs.len() as int);
                        assert(rs.subrange(0, r0.len() as int) =~= r0);
                        assert(nw =~= seq![(label, res)]);
                        assert(requested(nw) =~= seq![label]);
                        assert(self.tree.label_of(n as nat) == label);
                        assert(nw.drop_last() =~= Seq::<(Label, Result<(TypeCode, Label), E>)>::empty());
                    }
                    match res {
                        Ok((typecode, work_var)) => {
                            substitutions.insert(label, Formula::from_float(work_var, typecode));
                            proof {
                                let rs = wvp.requests();
                                let nw = rs.subrange(r0.len() as int, rs.len() as int);
                                assert(grants(nw.drop_last()) =~= Map::<Label, (TypeCode, Label)>::empty());
                                assert(grants(nw) =~= Map::<Label, (TypeCode, Label)>::empty().insert(label, (typecode, work_var)));
                            }
                        },
                        Err(e) => {
                            proof {
                                let rs = wvp.requests();
                                let nw = rs.subrange(r0.len() as int, rs.len() as int);
                                assert(grants(nw.drop_last()) =~= Map::<Label, (TypeCode, Label)>::empty());
                                assert(grants(nw) =~= Map::<Label, (TypeCode, Label)>::empty());
                            }
                            return Err(e);
                        },
                    }
                },
            }
            Ok(())
        } else {
            let children = self.tree.children(n);
            let ghost b0 = s_init.dom();
            let mut k: usize = 0;
            proof {
                let rs = wvp.requests();
                assert(rs.subrange(0, r0.len() as int) =~= r0);
                assert(rs.subrange(r0.len() as int, rs.len() as int) =~= Seq::<(Label, Result<(TypeCode, Label), E>)>::empty());
                assert(requested(rs.subrange(r0.len() as int, rs.len() as int)) =~= Seq::<Label>::empty());
            }
            while k < children.len()
                invariant
                    self.wf(),
                    n < self.tree.len(),
                    !self.is_var(n as nat),
                    children@ == self.tree.children_of(n as nat),
                    k <= children@.len(),
                    substitutions.wf(),
                    s_init == old(substitutions)@,
                    b0 == s_init.dom(),
                    r0 == old(wvp).requests(),
                    s_init.submap_of(substitutions@),
                    forall|key: Label|
                        #[trigger] substitutions@.contains_key(key) && !s_init.contains_key(key)
                            ==> substitutions@[key].args().len() == 0 && self.var_label(key),
                    self.bound_at(n as nat, s_init) ==> substitutions@ == s_init,
                    forall|j: int| 0 <= j < k ==> self.bound_at(#[trigger] children@[j] as nat, substitutions@),
                    r0.len() <= wvp.requests().len(),
                    wvp.requests().subrange(0, r0.len() as int) == r0,
                    ({
                        let nw = wvp.requests().subrange(r0.len() as int, wvp.requests().len() as int);
                        &&& requested(nw) == self.wanted_from(n as nat, k as nat, b0)
                        &&& all_granted(nw)
                        &&& forall|l: Label| #[trigger] substitutions@.contains_key(l) == (s_init.contains_key(l) || grants(nw).contains_key(l))
                        &&& forall|l: Label| #[trigger] grants(nw).contains_key(l) ==> {
                            &&& substitutions@[l] == Term::App(grants(nw)[l].1, Seq::empty())
                            &&& substitutions.pview()[l] == Pat::Node(grants(nw)[l].1, true, Seq::empty())
                            &&& substitutions.typecodes()[l] == grants(nw)[l].0
                        }
                        &&& forall|l: Label| #[trigger] s_init.contains_key(l) ==> substitutions.pview()[l] == old(substitutions).pview()[l]
                            && substitutions.typecodes()[l] == old(substitutions).typecodes()[l]
                    }),
                decreases children@.len() - k,
            {
                proof {
                    lemma_term_args(&self.tree, n as nat, k as int);
                }
                let ghost s0 = substitutions@;
                let ghost p0 = substitutions.pview();
                let ghost t0 = substitutions.typecodes();
                let ghost q0 = wvp.requests();
                let ghost nw0 = q0.subrange(r0.len() as int, q0.len() as int);
                proof {
                    lemma_grants_dom(nw0);
                    assert(s0.dom() =~= b0.union(self.wanted_from(n as nat, k as nat, b0).to_set()));
                }
                let res = self.sub_complete_substitutions(children[k], substitutions, wvp);
                proof {
                    let q1 = wvp.requests();
                    let nwc = q1.subrange(q0.len() as int, q1.len() as int);
                    let nw1 = q1.subrange(r0.len() as int, q1.len() as int);
                    assert(q1.subrange(0, q0.len() as int) == q0);
                    assert(q1.subrange(0, r0.len() as int) =~= r0);
                    assert(nw1 =~= nw0 + nwc);
                    assert(requested(nw1) =~= requested(nw0) + requested(nwc));
                    lemma_grants_concat(nw0, nwc);
                    let wk = self.wanted_from(n as nat, k as nat, b0);
                    assert(self.wanted_from(n as nat, (k + 1) as nat, b0) == wk + self.wanted_from(
                        children@[k as int] as nat,
                        self.tree.children_of(children@[k as int] as nat).len() + 1,
                        b0.union(wk.to_set()),
                    ));
                    assert forall|key: Label| #[trigger] s_init.dom().contains(key) implies substitutions@.dom().contains(key)
                        && substitutions@[key] == s_init[key] by {
                        assert(s0.dom().contains(key));
                        assert(substitutions@.dom().contains(key));
                    }
                    if self.bound_at(n as nat, s_init) {
                        assert(self.bound_at(self.tree.children_of(n as nat)[k as int] as nat, s_init));
                        assert(substitutions@ == s_init);
                    }
                    assert forall|key: Label| #[trigger] substitutions@.contains_key(key) && !s_init.contains_key(key)
                        implies substitutions@[key].args().len() == 0 && self.var_label(key) by {
                        if s0.contains_key(key) {
                            assert(s0.dom().contains(key));
                        }
                    }
                }
                proof {
                    let q1x = wvp.requests();
                    let nwcx = q1x.subrange(q0.len() as int, q1x.len() as int);
                    let nw1x = q1x.subrange(r0.len() as int, q1x.len() as int);
                    assert(nw1x =~= nw0 + nwcx);
                    assert forall|l: Label| #[trigger] substitutions@.contains_key(l) == (s_init.contains_key(l) || grants(nw1x).contains_key(l)) by {
                        assert(s0.contains_key(l) == (s_init.contains_key(l) || grants(nw0).contains_key(l)));
                    }
                    assert forall|l: Label| #[trigger] s_init.contains_key(l) implies substitutions.pview()[l] == old(substitutions).pview()[l]
                        && substitutions.typecodes()[l] == old(substitutions).typecodes()[l] by {
                        assert(s0.contains_key(l));
                    }
                    assert forall|l: Label| #[trigger] grants(nw1x).contains_key(l) implies {
                            &&& substitutions@[l] == Term::App(grants(nw1x)[l].1, Seq::empty())
                            &&& substitutions.pview()[l] == Pat::Node(grants(nw1x)[l].1, true, Seq::empty())
                            &&& substitutions.typecodes()[l] == grants(nw1x)[l].0
                        } by {
                        if grants(nwcx).contains_key(l) {
                            assert(grants(nw1x)[l] == grants(nwcx)[l]);
                            assert(substitutions@[l] == Term::App(grants(nwcx)[l].1, Seq::empty()));
                        } else {
                            assert(grants(nw0).contains_key(l));
                            assert(grants(nw1x)[l] == grants(nw0)[l]);
                            assert(s0.contains_key(l));
                            assert(s0[l] == Term::App(grants(nw0)[l].1, Seq::empty()));
                            assert(p0[l] == Pat::Node(grants(nw0)[l].1, true, Seq::empty()));
                            assert(t0[l] == grants(nw0)[l].0);
                            assert(s0.dom().contains(l));
                            assert(substitutions@.contains_key(l));
                            assert(substitutions@.dom().contains(l));
                            assert(substitutions@[l] == s0[l]);
                            assert(substitutions.pview()[l] == p0[l]);
                            assert(substitutions.typecodes()[l] == t0[l]);
                        }
                    }
                }
                match res {
                    Ok(()) => {},
                    Err(e) => {
                        proof {
                            let q1 = wvp.requests();
                            let nwc = q1.subrange(q0.len() as int, q1.len() as int);
                            let nw1 = q1.subrange(r0.len() as int, q1.len() as int);
                            let len = self.tree.children_of(n as nat).len();
                            self.lemma_wanted_prefix(n as nat, (k + 1) as nat, len, b0);
                            let wk = self.wanted_from(n as nat, k as nat, b0);
                            let wk1 = self.wanted_from(n as nat, (k + 1) as nat, b0);
                            assert(requested(nw1) =~= wk1.subrange(0, nw1.len() as int));
                            let want = self.wanted_from(n as nat, len + 1, b0);
                            assert(want == self.wanted_from(n as nat, len, b0));
                            assert(requested(nw1) =~= want.subrange(0, nw1.len() as int));
                            assert(nw1.last() == nwc.last());
                            assert forall|i: int| 0 <= i < nw1.len() - 1 implies (#[trigger] nw1[i]).1 is Ok by {
                                if i < nw0.len() {
                                    assert(nw1[i] == nw0[i]);
                                } else {
                                    assert(nw1[i] == nwc[i - nw0.len()]);
                                }
                            }
                        }
                        return Err(e);
                    },
                }
                proof {
                    let q1 = wvp.requests();
                    let nwc = q1.subrange(q0.len() as int, q1.len() as int);
                    let nw1 = q1.subrange(r0.len() as int, q1.len() as int);
                    assert(requested(nw1) =~= self.wanted_from(n as nat, (k + 1) as nat, b0));
                    assert forall|i: int| 0 <= i < nw1.len() implies (#[trigger] nw1[i]).1 is Ok by {
                        if i < nw0.len() {
                            assert(nw1[i] == nw0[i]);
                        } else {
                            assert(nw1[i] == nwc[i - nw0.len()]);
                        }
                    }
                    assert forall|j: int| 0 <= j < k + 1 implies self.bound_at(#[trigger] children@[j] as nat, substitutions@) by {
                        lemma_term_args(&self.tree, n as nat, j);
                        if j < k {
                            self.lemma_bound_stable(children@[j] as nat, s0, substitutions@);
                        }
                    }
                }
                k = k + 1;
            }
            proof {
                assert forall|j: int| 0 <= j < children@.len() implies (#[trigger] self.tree.children_of(n as nat)[j] < n ==> self.bound_at(self.tree.children_of(n as nat)[j] as nat, substitutions@)) by {
                    assert(self.bound_at(children@[j] as nat, substitutions@));
                }
                let len = self.tree.children_of(n as nat).len();
                assert(self.wanted_from(n as nat, len + 1, b0) == self.wanted_from(n as nat, len, b0));
                let nw = wvp.requests().subrange(r0.len() as int, wvp.requests().len() as int);
                assert(requested(nw).subrange(0, nw.len() as int) =~= requested(nw));
            }
            Ok(())
        }
    }

    /// Binds each variable of the formula that `substitutions` leaves free to
    /// a single-token formula made of a fresh work variable from `wvp`. The
    /// labels requested are `work_requests`: each free variable label once,
    /// depth first, at its first occurrence. Each label is bound to the work
    /// variable and typecode `wvp` answered for it. The first error from
    /// `wvp` stops the walk and is returned; bindings made before it stay.
    /// Old bindings are kept, and a formula whose variables are all bound
    /// leaves `substitutions` as it is.
    pub fn complete_substitutions<E, W: WorkVariableProvider<E>>(
        &self,
        substitutions: &mut Substitutions,
        wvp: &mut W,
    ) -> (r: Result<(), E>)
        requires
            self.wf(),
            old(substitutions).wf(),
        ensures
            final(substitutions).wf(),
            old(substitutions)@.submap_of(final(substitutions)@),
            forall|k: Label|
                #[trigger] final(substitutions)@.contains_key(k) && !old(substitutions)@.contains_key(k)
                    ==> final(substitutions)@[k].args().len() == 0 && self.var_label(k),
            r is Ok ==> self.binds_variables(final(substitutions)@),
            self.binds_variables(old(substitutions)@) ==> r is Ok && final(substitutions)@ == old(
                substitutions,
            )@,
            ({
                let r0 = old(wvp).requests();
                let rs = final(wvp).requests();
                let nw = rs.subrange(r0.len() as int, rs.len() as int);
                let want = self.work_requests(old(substitutions)@.dom());
                &&& r0.len() <= rs.len()
                &&& rs.subrange(0, r0.len() as int) == r0
                &&& nw.len() <= want.len()
                &&& requested(nw) == want.subrange(0, nw.len() as int)
                &&& forall|i: int| 0 <= i < nw.len() - 1 ==> (#[trigger] nw[i]).1 is Ok
                &&& r is Ok ==> nw.len() == want.len() && all_granted(nw)
                &&& r matches Err(e) ==> nw.len() > 0 && nw.last().1 == Err::<(TypeCode, Label), E>(e)
                &&& forall|l: Label| #[trigger] final(substitutions)@.contains_key(l)
                    == (old(substitutions)@.contains_key(l) || grants(nw).contains_key(l))
                &&& forall|l: Label| #[trigger] grants(nw).contains_key(l) ==> {
                    &&& final(substitutions)@[l] == Term::App(grants(nw)[l].1, Seq::empty())
                    &&& final(substitutions).pview()[l] == Pat::Node(grants(nw)[l].1, true, Seq::empty())
                    &&& final(substitutions).typecodes()[l] == grants(nw)[l].0
                }
                &&& forall|l: Label| #[trigger] old(substitutions)@.contains_key(l) ==> final(substitutions).pview()[l] == old(substitutions).pview()[l]
                    && final(substitutions).typecodes()[l] == old(substitutions).typecodes()[l]
            }),
    {
        self.sub_complete_substitutions(self.root, substitutions, wvp)
    }
}

/// Number of math tokens after the typecode in the statement of node `n`.
pub open spec fn token_count(db: &Database, t: &Tree, n: nat) -> int {
    match db.syntax_of(t.label_of(n)) {
        Some(ax) => ax.tokens@.len() as int,
        None => 0,
    }
}

/// The symbols that node `n` stands for, from token `j` of its statement on,
/// entering its children from child `ci` on: a constant token, or any token
/// of a node without children, is written as is; a variable token of a node
/// with children is replaced by the symbols of its next child. `None` when a
/// statement is missing or a node has fewer children than variable tokens.
pub open spec fn flat_from(db: &Database, t: &Tree, n: nat, j: nat, ci: nat) -> Option<Seq<Label>>
    decreases n, token_count(db, t, n) - j,
{
    match db.syntax_of(t.label_of(n)) {
        None => None,
        Some(ax) => {
            if j >= ax.tokens@.len() {
                Some(Seq::empty())
            } else {
                let sym = ax.tokens@[j as int].0;
                let c = t.children_of(n);
                if !ax.tokens@[j as int].1 || c.len() == 0 {
                    match flat_from(db, t, n, j + 1, ci) {
                        Some(r) => Some(seq![sym] + r),
                        None => None,
                    }
                } else if ci < c.len() && c[ci as int] < n {
                    match (flat_from(db, t, c[ci as int] as nat, 0, 0), flat_from(db, t, n, j + 1, ci + 1)) {
                        (Some(a), Some(b)) => Some(a + b),
                        _ => None,
                    }
                } else {
                    None
                }
            }
        }
    }
}

/// A token's bytes with the high bit of its last byte set.
pub open spec fn sentinel(name: Seq<u8>) -> Seq<u8> {
    if name.len() == 0 {
        name
    } else {
        name.update(name.len() - 1, name.last() | 0x80u8)
    }
}

/// The sentinel byte form of a sequence of symbols.
pub open spec fn stack_bytes(db: &Database, syms: Seq<Label>) -> Seq<u8>
    decreases syms.len(),
{
    if syms.len() == 0 {
        Seq::empty()
    } else {
        stack_bytes(db, syms.drop_last()) + sentinel(db.name(syms.last()))
    }
}

/// Byte `p` is the last byte of one of the tokens of `syms`.
pub open spec fn is_token_end(db: &Database, syms: Seq<Label>, p: int) -> bool {
    exists|i: int| 0 <= i < syms.len() && p + 1 == #[trigger] stack_bytes(db, syms.take(i + 1)).len()
}

/// Every name of `syms` is non-empty and plain 7-bit text.
pub open spec fn plain_names(db: &Database, syms: Seq<Label>) -> bool {
    &&& forall|i: int| 0 <= i < syms.len() ==> #[trigger] db.name(syms[i]).len() > 0
    &&& forall|i: int, k: int|
        0 <= i < syms.len() && 0 <= k < db.name(syms[i]).len() ==> #[trigger] db.name(syms[i])[k] < 0x80u8
}

proof fn lemma_high_bit(b: u8)
    ensures
        b | 0x80u8 >= 0x80u8,
{
    assert(b | 0x80u8 >= 0x80u8) by (bit_vector);
}

/// In the sentinel byte form of plainly named symbols, exactly the last
/// byte of each token has its high bit set.
pub proof fn lemma_sentinel_marks_token_ends(db: &Database, syms: Seq<Label>)
    requires
        plain_names(db, syms),
    ensures
        forall|p: int|
            0 <= p < stack_bytes(db, syms).len() ==> ((#[trigger] stack_bytes(db, syms)[p] >= 0x80u8)
                <==> is_token_end(db, syms, p)),
    decreases syms.len(),
{
    if syms.len() > 0 {
        let init = syms.drop_last();
        let name = db.name(syms.last());
        assert forall|i: int, k: int|
            0 <= i < init.len() && 0 <= k < db.name(init[i]).len() implies #[trigger] db.name(init[i])[k] < 0x80u8 by {
            assert(db.name(syms[i])[k] < 0x80u8);
        }
        assert forall|i: int| 0 <= i < init.len() implies #[trigger] db.name(init[i]).len() > 0 by {
            assert(db.name(syms[i]).len() > 0);
        }
        lemma_sentinel_marks_token_ends(db, init);
        let a = stack_bytes(db, init);
        let all = stack_bytes(db, syms);
        assert(syms.take(syms.len() as int) =~= syms);
        assert(syms.last() == syms[syms.len() - 1]);
        assert(db.name(syms[syms.len() - 1])[0] < 0x80u8);
        assert(name.len() > 0);
        lemma_high_bit(name.last());
        assert forall|i: int| 0 <= i < init.len() implies #[trigger] syms.take(i + 1) == init.take(i + 1) by {
            assert(syms.take(i + 1) =~= init.take(i + 1));
        }
        assert forall|i: int| 0 <= i < init.len() implies #[trigger] stack_bytes(db, init.take(i + 1)).len() <= a.len() by {
            lemma_prefix_bytes_len(db, init, i + 1);
        }
        assert(all == a + sentinel(name));
        assert(all.len() == a.len() + name.len());
        assert forall|p: int| 0 <= p < all.len() implies ((#[trigger] all[p] >= 0x80u8) <==> is_token_end(db, syms, p)) by {
            let last = syms.len() - 1;
            if p < a.len() {
                assert(all[p] == a[p]);
                assert(a[p] >= 0x80u8 <==> is_token_end(db, init, p));
                if is_token_end(db, init, p) {
                    let i = choose|i: int| 0 <= i < init.len() && p + 1 == #[trigger] stack_bytes(db, init.take(i + 1)).len();
                    assert(syms.take(i + 1) == init.take(i + 1));
                    assert(p + 1 == stack_bytes(db, syms.take(i + 1)).len());
                }
                if is_token_end(db, syms, p) {
                    let i = choose|i: int| 0 <= i < syms.len() && p + 1 == #[trigger] stack_bytes(db, syms.take(i + 1)).len();
                    if i < init.len() {
                        assert(syms.take(i + 1) == init.take(i + 1));
                        assert(p + 1 == stack_bytes(db, init.take(i + 1)).len());
                    } else {
                        assert(syms.take(i + 1) == syms);
                    }
                }
            } else {
                let k = p - a.len();
                assert(all[p] == sentinel(name)[k]);
                if k == name.len() - 1 {
                    assert(syms.take(last + 1) == syms);
                    assert(p + 1 == stack_bytes(db, syms.take(last + 1)).len());
                } else {
                    assert(db.name(syms[last])[k] < 0x80u8);
                    assert(sentinel(name)[k] == name[k]);
                    if is_token_end(db, syms, p) {
                        let i = choose|i: int| 0 <= i < syms.len() && p + 1 == #[trigger] stack_bytes(db, syms.take(i + 1)).len();
                        if i < init.len() {
                            assert(syms.take(i + 1) == init.take(i + 1));
                            assert(stack_bytes(db, init.take(i + 1)).len() <= a.len());
                        } else {
                            assert(syms.take(i + 1) == syms);
                        }
                    }
                }
            }
        }
    }
}

/// A prefix of the symbols takes no more bytes than all of them.
proof fn lemma_prefix_bytes_len(db: &Database, syms: Seq<Label>, n: int)
    requires
        0 <= n <= syms.len(),
    ensures
        stack_bytes(db, syms.take(n)).len() <= stack_bytes(db, syms).len(),
    decreases syms.len(),
{
    if n < syms.len() {
        lemma_prefix_bytes_len(db, syms.drop_last(), n);
        assert(syms.drop_last().take(n) =~= syms.take(n));
    } else {
        assert(syms.take(n) =~= syms);
    }
}

/// A formula together with the database that names its atoms.
pub struct FormulaRef<'a> {
    db: &'a Database,
    formula: &'a Formula,
}

impl Formula {
    /// The symbols of the formula's token form, after its typecode.
    pub closed spec fn flat(&self, db: &Database) -> Option<Seq<Label>> {
        flat_from(db, &*self.tree, self.root as nat, 0, 0)
    }

    /// Pairs the formula with a database.
    pub fn as_ref<'a>(&'a self, db: &'a Database) -> (r: FormulaRef<'a>)
        ensures
            r.formula() == *self,
            r.db() == *db,
    {
        FormulaRef { db, formula: self }
    }

    /// Appends the symbols of node `n` to `out`; false when the database
    /// does not describe the node.
    fn flatten_node(&self, db: &Database, n: usize, out: &mut Vec<Label>) -> (r: bool)
        requires
            self.wf(),
            n < self.tree.len(),
        ensures
            r == flat_from(db, &*self.tree, n as nat, 0, 0) is Some,
            r ==> final(out)@ == old(out)@ + flat_from(db, &*self.tree, n as nat, 0, 0)->0,
        decreases n, 0nat,
    {
        let ax = match db.get_statement(self.tree.label(n)) {
            Some(ax) => ax,
            None => {
                return false;
            },
        };
        let children = self.tree.children(n);
        let has_children = children.len() > 0;
        let ghost t = &*self.tree;
        let ghost base = out@;
        let mut j: usize = 0;
        let mut ci: usize = 0;
        while j < ax.tokens.len()
            invariant
                self.wf(),
                n < self.tree.len(),
                t == &*self.tree,
                db.syntax_of(t.label_of(n as nat)) == Some(*ax),
                children@ == t.children_of(n as nat),
                has_children == (children@.len() > 0),
                j <= ax.tokens@.len(),
                ci <= children@.len(),
                out@.len() >= base.len(),
                out@.subrange(0, base.len() as int) == base,
                (flat_from(db, t, n as nat, 0, 0) is Some) == (flat_from(db, t, n as nat, j as nat, ci as nat) is Some),
                flat_from(db, t, n as nat, 0, 0) is Some ==> flat_from(db, t, n as nat, 0, 0)->0 == out@.subrange(base.len() as int, out@.len() as int) + flat_from(db, t, n as nat, j as nat, ci as nat)->0,
            decreases ax.tokens@.len() - j,
        {
            let (sym, is_var) = ax.tokens[j];
            let ghost before = out@;
            if !is_var || !has_children {
                out.push(sym);
                proof {
                    assert(out@.subrange(0, base.len() as int) =~= base);
                    assert(out@.subrange(base.len() as int, out@.len() as int) =~= before.subrange(base.len() as int, before.len() as int).push(sym));
                    if flat_from(db, t, n as nat, 0, 0) is Some {
                        assert(flat_from(db, t, n as nat, 0, 0)->0 =~= out@.subrange(base.len() as int, out@.len() as int) + flat_from(db, t, n as nat, (j + 1) as nat, ci as nat)->0);
                    }
                }
            } else if ci < children.len() {
                proof {
                    lemma_term_args(t, n as nat, ci as int);
                }
                if !self.flatten_node(db, children[ci], out) {
                    return false;
                }
                proof {
                    assert(out@.subrange(0, base.len() as int) =~= base);
                    let a = flat_from(db, t, children@[ci as int] as nat, 0, 0)->0;
                    assert(out@.subrange(base.len() as int, out@.len() as int) =~= before.subrange(base.len() as int, before.len() as int) + a);
                    if flat_from(db, t, n as nat, 0, 0) is Some {
                        assert(flat_from(db, t, n as nat, 0, 0)->0 =~= out@.subrange(base.len() as int, out@.len() as int) + flat_from(db, t, n as nat, (j + 1) as nat, (ci + 1) as nat)->0);
                    }
                }
                ci = ci + 1;
            } else {
                return false;
            }
            j = j + 1;
        }
        proof {
            assert(out@ =~= base + out@.subrange(base.len() as int, out@.len() as int));
            if flat_from(db, t, n as nat, 0, 0) is Some {
                assert(flat_from(db, t, n as nat, 0, 0)->0 =~= out@.subrange(base.len() as int, out@.len() as int));
            }
        }
        true
    }
}

impl<'a> FormulaRef<'a> {
    pub closed spec fn formula(&self) -> Formula {
        *self.formula
    }

    pub closed spec fn db(&self) -> Database {
        *self.db
    }

    /// The symbols of the formula, in the order a person would write them
    /// after its typecode; `None` when the database does not describe some
    /// node of the formula.
    pub fn iter(&self) -> (r: Option<Vec<Label>>)
        requires
            self.formula().wf(),
        ensures
            match r {
                Some(v) => self.formula().flat(&self.db()) == Some(v@),
                None => self.formula().flat(&self.db()) is None,
            },
    {
        let mut out: Vec<Label> = Vec::new();
        if self.formula.flatten_node(self.db, self.formula.root, &mut out) {
            proof {
                assert(out@ =~= Seq::<Label>::empty() + out@);
            }
            Some(out)
        } else {
            None
        }
    }

    /// Appends the formula in sentinel byte form (each symbol's name, with
    /// the high bit of its last byte set) to `stack_buffer`, and returns the
    /// range it occupies.
    pub fn append_to_stack_buffer(&self, stack_buffer: &mut Vec<u8>) -> (r: ByteRange)
        requires
            self.formula().wf(),
            self.formula().flat(&self.db()) is Some,
        ensures
            r.start == old(stack_buffer)@.len(),
            r.end == final(stack_buffer)@.len(),
            final(stack_buffer)@ == old(stack_buffer)@ + stack_bytes(
                &self.db(),
                self.formula().flat(&self.db())->0,
            ),
    {
        let tos = stack_buffer.len();
        let syms = match self.iter() {
            Some(v) => v,
            None => Vec::new(),
        };
        let ghost pre = stack_buffer@;
        let mut i: usize = 0;
        while i < syms.len()
            invariant
                i <= syms@.len(),
                stack_buffer@ == pre + stack_bytes(self.db, syms@.take(i as int)),
            decreases syms@.len() - i,
        {
            let name = self.db.atom_name(syms[i]);
            if name.len() > 0 {
                crate::verify::append_range(stack_buffer, name, 0, name.len() - 1);
                stack_buffer.push(name[name.len() - 1] | 0x80u8);
            }
            proof {
                assert(syms@.take(i + 1).drop_last() =~= syms@.take(i as int));
                assert(stack_buffer@ =~= pre + stack_bytes(self.db, syms@.take(i + 1)));
            }
            i = i + 1;
        }
        proof {
            assert(syms@.take(i as int) =~= syms@);
        }
        ByteRange { start: tos, end: stack_buffer.len() }
    }
}

/// The s-expression of node `n`, or, for `k <= ` its number of children,
/// the text for its first `k` children, each preceded by a space.
pub open spec fn sexpr_from(db: &Database, t: &Tree, n: nat, k: nat) -> Seq<u8>
    decreases n, k,
{
    let c = t.children_of(n);
    if k > c.len() {
        if c.len() == 0 {
            db.name(t.label_of(n))
        } else {
            seq![40u8] + db.name(t.label_of(n)) + sexpr_from(db, t, n, c.len()) + seq![41u8]
        }
    } else if k == 0 {
        Seq::empty()
    } else {
        sexpr_from(db, t, n, (k - 1) as nat) + seq![32u8] + if c[k - 1] < n {
            sexpr_from(db, t, c[k - 1] as nat, t.children_of(c[k - 1] as nat).len() + 1)
        } else {
            Seq::empty()
        }
    }
}

/// The s-expression of node `n`: `(label child ...)`, or the bare label of
/// a leaf.
pub open spec fn sexpr_at(db: &Database, t: &Tree, n: nat) -> Seq<u8> {
    sexpr_from(db, t, n, t.children_of(n).len() + 1)
}

/// The text that a byte string decodes to as UTF-8, invalid sequences
/// replaced.
pub uninterp spec fn utf8_text(b: Seq<u8>) -> Seq<char>;

/// The text of 7-bit bytes: one character per byte.
pub open spec fn ascii_text(b: Seq<u8>) -> Seq<char> {
    Seq::new(b.len(), |i: int| b[i] as char)
}

/// Relies on `String::from_utf8_lossy`: the text depends on the bytes alone,
/// and bytes below 0x80 decode to one character each, as UTF-8 does.
#[verifier::external_body]
fn bytes_to_text(b: &[u8]) -> (r: String)
    ensures
        r@ == utf8_text(b@),
        (forall|i: int| 0 <= i < b@.len() ==> #[trigger] b@[i] < 0x80u8) ==> r@ == ascii_text(b@),
{
    String::from_utf8_lossy(b).into_owned()
}

impl Formula {
    /// The s-expression of the formula.
    pub closed spec fn sexpr(&self, db: &Database) -> Seq<u8> {
        sexpr_at(db, &*self.tree, self.root as nat)
    }

    /// Appends the s-expression of node `n` to `out`.
    fn write_sub_sexpr(&self, db: &Database, n: usize, out: &mut Vec<u8>)
        requires
            self.wf(),
            n < self.tree.len(),
        ensures
            final(out)@ == old(out)@ + sexpr_at(db, &*self.tree, n as nat),
        decreases n,
    {
        let ghost t = &*self.tree;
        let name = db.atom_name(self.tree.label(n));
        let children = self.tree.children(n);
        if children.len() == 0 {
            crate::verify::append_range(out, name, 0, name.len());
            proof {
                assert(name@.subrange(0, name@.len() as int) =~= name@);
            }
            return;
        }
        let ghost pre = out@;
        out.push(40u8);
        crate::verify::append_range(out, name, 0, name.len());
        proof {
            assert(name@.subrange(0, name@.len() as int) =~= name@);
        }
        let ghost head = out@;
        let mut k: usize = 0;
        while k < children.len()
            invariant
                self.wf(),
                n < self.tree.len(),
                t == &*self.tree,
                children@ == t.children_of(n as nat),
                k <= children@.len(),
                out@ == head + sexpr_from(db, t, n as nat, k as nat),
            decreases children@.len() - k,
        {
            proof {
                lemma_term_args(t, n as nat, k as int);
            }
            out.push(32u8);
            self.write_sub_sexpr(db, children[k], out);
            proof {
                assert(out@ =~= head + sexpr_from(db, t, n as nat, (k + 1) as nat));
            }
            k = k + 1;
        }
        out.push(41u8);
        proof {
            assert(out@ =~= pre + sexpr_at(db, t, n as nat));
        }
    }
}

impl<'a> FormulaRef<'a> {
    /// Appends the s-expression of the formula to `out`.
    pub fn write_sexpr(&self, out: &mut Vec<u8>)
        requires
            self.formula().wf(),
        ensures
            final(out)@ == old(out)@ + self.formula().sexpr(&self.db()),
    {
        self.formula.write_sub_sexpr(self.db, self.formula.root, out)
    }

    /// The s-expression of the formula as text.
    pub fn as_sexpr(&self) -> (r: String)
        requires
            self.formula().wf(),
        ensures
            r@ == utf8_text(self.formula().sexpr(&self.db())),
            (forall|i: int|
                0 <= i < self.formula().sexpr(&self.db()).len() ==> #[trigger] self.formula().sexpr(&self.db())[i]
                    < 0x80u8) ==> r@ == ascii_text(self.formula().sexpr(&self.db())),
    {
        let mut out: Vec<u8> = Vec::new();
        self.write_sexpr(&mut out);
        proof {
            assert(out@ =~= self.formula().sexpr(&self.db()));
        }
        bytes_to_text(out.as_slice())
    }
}

/// Node `n` and every node below it have a statement in `db`, each such
/// statement's floating hypotheses name children the node has, and each
/// node's sub-formula flattens.
pub open spec fn syntax_ok(db: &Database, t: &Tree, n: nat) -> bool
    decreases n,
{
    match db.syntax_of(t.label_of(n)) {
        None => false,
        Some(ax) => {
            &&& forall|k: int|
                0 <= k < t.children_of(n).len() ==> (#[trigger] t.children_of(n)[k] < n ==> syntax_ok(
                    db,
                    t,
                    t.children_of(n)[k] as nat,
                ))
            &&& forall|i: int| 0 <= i < ax.floats@.len() ==> #[trigger] ax.floats@[i] < t.children_of(n).len()
            &&& flat_from(db, t, n, 0, 0) is Some
        },
    }
}

/// Receives the steps of a syntax proof and hands back a handle for each.
pub trait ProofBuilder<I> {
    /// The steps recorded so far: each step's statement address, hypothesis
    /// handles and proved expression bytes, with the handle handed back.
    closed spec fn steps(&self) -> Seq<BuiltStep<I>> {
        Seq::empty()
    }

    /// Records a step citing the statement at `address` with the given
    /// hypothesis handles, proving the expression at `range` of `buffer`.
    fn build(&mut self, address: StatementAddress, hyps: Vec<I>, buffer: &Vec<u8>, range: ByteRange) -> (r: I)
        requires
            range_in(range, buffer@.len()),
        ensures
            final(self).steps() == old(self).steps().push(
                BuiltStep { address, hyps: hyps@, bytes: range_bytes(buffer@, range), handle: r },
            ),
    ;
}

/// One recorded step of a syntax proof.
pub struct BuiltStep<I> {
    pub address: StatementAddress,
    pub hyps: Seq<I>,
    pub bytes: Seq<u8>,
    pub handle: I,
}

impl Formula {
    /// The labels of the sub-formula at node `n`, depth first, each node
    /// before its children, with whether each is a variable; for `k <= ` its
    /// number of children, the labels of its first `k` children only.
    pub closed spec fn labels_from(&self, n: nat, k: nat) -> Seq<(Label, bool)>
        decreases n, k,
    {
        let c = self.tree.children_of(n);
        if k > c.len() {
            seq![(self.tree.label_of(n), self.is_var(n))] + self.labels_from(n, c.len())
        } else if k == 0 {
            Seq::empty()
        } else {
            self.labels_from(n, (k - 1) as nat) + if c[k - 1] < n {
                self.labels_from(c[k - 1] as nat, self.tree.children_of(c[k - 1] as nat).len() + 1)
            } else {
                Seq::empty()
            }
        }
    }

    /// The labels of the formula, depth first, each node before its children.
    pub closed spec fn labels(&self) -> Seq<(Label, bool)> {
        self.labels_from(self.root as nat, self.tree.children_of(self.root as nat).len() + 1)
    }

    fn push_labels(&self, n: usize, out: &mut Vec<(Label, bool)>)
        requires
            self.wf(),
            n < self.tree.len(),
        ensures
            final(out)@ == old(out)@ + self.labels_from(n as nat, self.tree.children_of(n as nat).len() + 1),
        decreases n,
    {
        let ghost pre = out@;
        out.push((self.tree.label(n), self.is_variable(n)));
        let ghost head = out@;
        let children = self.tree.children(n);
        let mut k: usize = 0;
        while k < children.len()
            invariant
                self.wf(),
                n < self.tree.len(),
                children@ == self.tree.children_of(n as nat),
                k <= children@.len(),
                out@ == head + self.labels_from(n as nat, k as nat),
            decreases children@.len() - k,
        {
            proof {
                lemma_term_args(&self.tree, n as nat, k as int);
            }
            self.push_labels(children[k], out);
            proof {
                assert(out@ =~= head + self.labels_from(n as nat, (k + 1) as nat));
            }
            k = k + 1;
        }
        proof {
            assert(out@ =~= pre + self.labels_from(n as nat, self.tree.children_of(n as nat).len() + 1));
        }
    }

    /// The labels of the formula, depth first, each node before its
    /// children, with whether each is a variable.
    pub fn labels_iter(&self) -> (r: Vec<(Label, bool)>)
        requires
            self.wf(),
        ensures
            r@ == self.labels(),
    {
        let mut out: Vec<(Label, bool)> = Vec::new();
        self.push_labels(self.root, &mut out);
        proof {
            assert(out@ =~= self.labels());
        }
        out
    }
}

impl<'a> FormulaRef<'a> {
    /// The typecode of the statement that node `n`'s label stands for; the
    /// formula's own typecode when the database does not know it.
    fn compute_typecode_at(&self, n: usize) -> (r: TypeCode)
        requires
            self.formula().wf(),
            n < self.formula.tree.len(),
        ensures
            r == match self.db().syntax_of(self.formula.tree.label_of(n as nat)) {
                Some(ax) => ax.typecode,
                None => self.formula.typecode,
            },
    {
        match self.db.get_statement(self.formula.tree.label(n)) {
            Some(ax) => ax.typecode,
            None => self.formula.typecode,
        }
    }

    /// The sub-formula at node `n`, typed by its label's statement.
    fn to_rerooted(&self, n: usize) -> (r: Formula)
        requires
            self.formula().wf(),
            n < self.formula.tree.len(),
        ensures
            r.wf(),
            r.term() == self.formula.tree.term_at(n as nat),
            r.flat(&self.db()) == flat_from(&self.db(), &*self.formula.tree, n as nat, 0, 0),
            r.typecode() == match self.db().syntax_of(self.formula.tree.label_of(n as nat)) {
                Some(ax) => ax.typecode,
                None => self.formula.typecode,
            },
    {
        Formula {
            typecode: self.compute_typecode_at(n),
            tree: share_tree(&self.formula.tree),
            root: n,
            variables: self.formula.variables.duplicate(),
        }
    }

    /// Builds the syntax proof of the sub-formula at node `n`: the proofs of
    /// its children, reordered as the floating hypotheses of the node's
    /// statement, then a step for the node itself. `None` when the
    /// database does not describe some node.
    #[verifier::spinoff_prover]
    fn sub_build_syntax_proof<I: Copy, A: ProofBuilder<I>>(
        &self,
        n: usize,
        stack_buffer: &mut Vec<u8>,
        arr: &mut A,
    ) -> (r: Option<I>)
        requires
            self.formula().wf(),
            n < self.formula.tree.len(),
        ensures
            old(stack_buffer)@.len() <= final(stack_buffer)@.len(),
            final(stack_buffer)@.subrange(0, old(stack_buffer)@.len() as int) == old(stack_buffer)@,
            (r is Some) == syntax_ok(self.db, &*self.formula.tree, n as nat),
            r is Some ==> {
                let s0 = old(arr).steps();
                let st = final(arr).steps();
                let nw = st.subrange(s0.len() as int, st.len() as int);
                &&& s0.len() <= st.len()
                &&& st.subrange(0, s0.len() as int) == s0
                &&& steps_from(self.db, &*self.formula.tree, n as nat, self.formula.tree.children_of(n as nat).len() + 1, nw)
                &&& r == Some(nw.last().handle)
                &&& final(stack_buffer)@ == old(stack_buffer)@ + steps_bytes(nw)
            },
        decreases n,
    {
        let ghost t = &*self.formula.tree;
        let ghost s0 = arr.steps();
        let ghost ob = stack_buffer@;
        let ax = match self.db.get_statement(self.formula.tree.label(n)) {
            Some(ax) => ax,
            None => {
                return None;
            },
        };
        let children = self.formula.tree.children(n);
        let mut children_hyps: Vec<I> = Vec::new();
        let mut k: usize = 0;
        proof {
            assert(arr.steps().subrange(0, s0.len() as int) =~= s0);
            assert(arr.steps().subrange(s0.len() as int, arr.steps().len() as int) =~= Seq::<BuiltStep<I>>::empty());
            assert(ob =~= ob + steps_bytes(Seq::<BuiltStep<I>>::empty()));
        }
        while k < children.len()
            invariant
                self.formula().wf(),
                t == &*self.formula.tree,
                n < self.formula.tree.len(),
                children@ == self.formula.tree.children_of(n as nat),
                k <= children@.len(),
                old(stack_buffer)@.len() <= stack_buffer@.len(),
                stack_buffer@.subrange(0, old(stack_buffer)@.len() as int) == old(stack_buffer)@,
                children_hyps@.len() == k,
                self.db().syntax_of(self.formula.tree.label_of(n as nat)) == Some(*ax),
                forall|j: int| 0 <= j < k ==> syntax_ok(self.db, &*self.formula.tree, #[trigger] children@[j] as nat),
                s0 == old(arr).steps(),
                ob == old(stack_buffer)@,
                s0.len() <= arr.steps().len(),
                arr.steps().subrange(0, s0.len() as int) == s0,
                ({
                    let nw = arr.steps().subrange(s0.len() as int, arr.steps().len() as int);
                    &&& steps_from(self.db, t, n as nat, k as nat, nw)
                    &&& stack_buffer@ == ob + steps_bytes(nw)
                    &&& forall|j: int| 0 <= j < k ==> #[trigger] step_count(t, n as nat, (j + 1) as nat) <= nw.len()
                        && 1 <= step_count(t, n as nat, (j + 1) as nat)
                    &&& children_hyps@ == Seq::new(k as nat, |j: int| nw[step_count(t, n as nat, (j + 1) as nat) - 1].handle)
                }),
            decreases children@.len() - k,
        {
            proof {
                lemma_term_args(&self.formula.tree, n as nat, k as int);
            }
            let ghost b0 = stack_buffer@;
            let ghost q0 = arr.steps();
            let ghost hs0 = children_hyps@;
            match self.sub_build_syntax_proof(children[k], stack_buffer, arr) {
                Some(h) => {
                    children_hyps.push(h);
                    proof {
                        let q1 = arr.steps();
                        let nw0 = q0.subrange(s0.len() as int, q0.len() as int);
                        let cn = q1.subrange(q0.len() as int, q1.len() as int);
                        let nw1 = q1.subrange(s0.len() as int, q1.len() as int);
                        assert(q1.subrange(0, q0.len() as int) == q0);
                        assert(q1.subrange(0, s0.len() as int) =~= s0);
                        assert(nw1 =~= nw0 + cn);
                        let c = children@[k as int];
                        lemma_step_count_pos(t, c as nat);
                        assert(nw1.subrange(0, nw0.len() as int) =~= nw0);
                        assert(nw1.subrange(nw0.len() as int, nw1.len() as int) =~= cn);
                        assert(step_count(t, n as nat, (k + 1) as nat) == step_count(t, n as nat, k as nat) + step_count(t, c as nat, t.children_of(c as nat).len() + 1));
                        assert(steps_from(self.db, t, n as nat, (k + 1) as nat, nw1));
                        lemma_steps_bytes_concat(nw0, cn);
                        assert(stack_buffer@ =~= ob + steps_bytes(nw1));
                        assert forall|j: int| 0 <= j < k + 1 implies #[trigger] step_count(t, n as nat, (j + 1) as nat) <= nw1.len()
                            && 1 <= step_count(t, n as nat, (j + 1) as nat) by {
                            if j < k {
                            } else {
                            }
                        }
                        assert(nw1.last() == cn.last());
                        assert forall|j: int| 0 <= j < k + 1 implies #[trigger] children_hyps@[j] == nw1[step_count(t, n as nat, (j + 1) as nat) - 1].handle by {
                            if j < k {
                                assert(children_hyps@[j] == hs0[j]);
                                assert(hs0[j] == nw0[step_count(t, n as nat, (j + 1) as nat) - 1].handle);
                                assert(step_count(t, n as nat, (j + 1) as nat) <= nw0.len());
                                assert(nw1[step_count(t, n as nat, (j + 1) as nat) - 1] == nw0[step_count(t, n as nat, (j + 1) as nat) - 1]);
                            } else {
                                assert(children_hyps@[j] == h);
                            }
                        }
                        assert(children_hyps@ =~= Seq::new((k + 1) as nat, |j: int| nw1[step_count(t, n as nat, (j + 1) as nat) - 1].handle));
                        assert forall|x: int| 0 <= x < old(stack_buffer)@.len() implies stack_buffer@[x] == old(stack_buffer)@[x] by {
                            assert(stack_buffer@.subrange(0, b0.len() as int)[x] == b0[x]);
                            assert(b0.subrange(0, old(stack_buffer)@.len() as int)[x] == b0[x]);
                        }
                        assert(stack_buffer@.subrange(0, old(stack_buffer)@.len() as int) =~= old(stack_buffer)@);
                    }
                },
                None => {
                    proof {
                        assert(stack_buffer@.subrange(0, old(stack_buffer)@.len() as int) =~= old(stack_buffer)@) by {
                            assert forall|x: int| 0 <= x < old(stack_buffer)@.len() implies stack_buffer@[x] == old(stack_buffer)@[x] by {
                                assert(stack_buffer@.subrange(0, b0.len() as int)[x] == b0[x]);
                                assert(b0.subrange(0, old(stack_buffer)@.len() as int)[x] == b0[x]);
                            }
                        }
                        assert(self.formula.tree.children_of(n as nat)[k as int] < n);
                    }
                    return None;
                },
            }
            k = k + 1;
        }
        let mut hyps: Vec<I> = Vec::new();
        let mut i: usize = 0;
        let ghost qc = arr.steps();
        let ghost nwc = qc.subrange(s0.len() as int, qc.len() as int);
        while i < ax.floats.len()
            invariant
                arr.steps() == qc,
                t == &*self.formula.tree,
                s0 == old(arr).steps(),
                ob == old(stack_buffer)@,
                s0.len() <= qc.len(),
                qc.subrange(0, s0.len() as int) == s0,
                nwc == qc.subrange(s0.len() as int, qc.len() as int),
                steps_from(self.db, t, n as nat, children@.len() as nat, nwc),
                stack_buffer@ == ob + steps_bytes(nwc),
                forall|j: int| 0 <= j < children@.len() ==> #[trigger] step_count(t, n as nat, (j + 1) as nat) <= nwc.len()
                    && 1 <= step_count(t, n as nat, (j + 1) as nat),
                children_hyps@ == Seq::new(children@.len() as nat, |j: int| nwc[step_count(t, n as nat, (j + 1) as nat) - 1].handle),
                i <= ax.floats@.len(),
                old(stack_buffer)@.len() <= stack_buffer@.len(),
                stack_buffer@.subrange(0, old(stack_buffer)@.len() as int) == old(stack_buffer)@,
                children_hyps@.len() == children@.len(),
                forall|j: int| 0 <= j < i ==> #[trigger] ax.floats@[j] < children@.len(),
                self.db().syntax_of(self.formula.tree.label_of(n as nat)) == Some(*ax),
                children@ == self.formula.tree.children_of(n as nat),
                forall|j: int| 0 <= j < children@.len() ==> syntax_ok(self.db, &*self.formula.tree, #[trigger] children@[j] as nat),
                hyps@ == Seq::new(i as nat, |j: int| children_hyps@[ax.floats@[j] as int]),
            decreases ax.floats@.len() - i,
        {
            let index = ax.floats[i];
            if index >= children_hyps.len() {
                return None;
            }
            hyps.push(children_hyps[index]);
            proof {
                assert(hyps@ =~= Seq::new((i + 1) as nat, |j: int| children_hyps@[ax.floats@[j] as int]));
            }
            i = i + 1;
        }
        let sub = self.to_rerooted(n);
        let sub_ref = sub.as_ref(self.db);
        match sub_ref.iter() {
            Some(_) => {},
            None => {
                return None;
            },
        }
        let ghost b1 = stack_buffer@;
        let range = sub_ref.append_to_stack_buffer(stack_buffer);
        proof {
            assert forall|x: int| 0 <= x < old(stack_buffer)@.len() implies stack_buffer@[x] == old(stack_buffer)@[x] by {
                assert(b1.subrange(0, old(stack_buffer)@.len() as int)[x] == b1[x]);
            }
            assert(stack_buffer@.subrange(0, old(stack_buffer)@.len() as int) =~= old(stack_buffer)@);
            assert forall|kk: int| 0 <= kk < children@.len() implies (#[trigger] children@[kk] < n ==> syntax_ok(
                self.db, &*self.formula.tree, children@[kk] as nat)) by {}
            assert(range_bytes(stack_buffer@, range) =~= stack_bytes(self.db, flat_from(self.db, t, n as nat, 0, 0)->0));
        }
        let ghost q0 = arr.steps();
        let ghost hv = hyps@;
        let h = arr.build(ax.address, hyps, stack_buffer, range);
        proof {
            let q1 = arr.steps();
            let nw0 = q0.subrange(s0.len() as int, q0.len() as int);
            let nw1 = q1.subrange(s0.len() as int, q1.len() as int);
            let step = BuiltStep { address: ax.address, hyps: hv, bytes: range_bytes(stack_buffer@, range), handle: h };
            assert(q1.subrange(0, s0.len() as int) =~= s0);
            assert(nw1 =~= nw0.push(step));
            assert(nw1.drop_last() =~= nw0);
            let len = children@.len();
            assert forall|x: int| 0 <= x < ax.floats@.len() implies #[trigger] nw1[step_count(t, n as nat, (ax.floats@[x] + 1) as nat) - 1].handle
                == children_hyps@[ax.floats@[x] as int] by {
                let j = ax.floats@[x] as int;
                assert(children_hyps@[j] == nw0[step_count(t, n as nat, (j + 1) as nat) - 1].handle);
                assert(step_count(t, n as nat, (j + 1) as nat) <= nw0.len());
            }
            assert(hv =~= Seq::new(ax.floats@.len(), |x: int| nw1[step_count(t, n as nat, (ax.floats@[x] + 1) as nat) - 1].handle));
            assert(nw0 == nwc);
            lemma_steps_len(self.db, t, n as nat, len as nat, nwc);
            assert(step_count(t, n as nat, (len + 1) as nat) == step_count(t, n as nat, len as nat) + 1);
            assert(nw1.len() == step_count(t, n as nat, (len + 1) as nat));
            assert(steps_from(self.db, t, n as nat, len as nat, nw1.drop_last()));
            assert(self.db.syntax_of(t.label_of(n as nat)) == Some(*ax));
            assert(nw1.last().address == ax.address);
            assert(nw1.last().bytes == stack_bytes(self.db, flat_from(self.db, t, n as nat, 0, 0)->0));
            assert(nw1.last().hyps == Seq::new(ax.floats@.len(), |x: int| nw1[step_count(t, n as nat, (ax.floats@[x] + 1) as nat) - 1].handle));
            assert(steps_from(self.db, t, n as nat, (len + 1) as nat, nw1));
            assert(steps_bytes(nw1) == steps_bytes(nw0) + step.bytes);
            assert(stack_buffer@ =~= ob + steps_bytes(nw1));
        }
        Some(h)
    }

    /// Builds the syntax proof of the formula into `arr`, writing the
    /// expressions it proves to `stack_buffer`, and returns the handle of
    /// its last step; `None` when the database does not describe some node.
    /// On success the steps recorded are `syntax_steps`: one per node,
    /// children first, each citing its node's statement, with the handles
    /// of the children in the order of the statement's floating hypotheses,
    /// proving the sentinel form of the node's sub-formula, whose bytes are
    /// appended to `stack_buffer` in step order; `r` is the root's handle.
    pub fn build_syntax_proof<I: Copy, A: ProofBuilder<I>>(
        &self,
        stack_buffer: &mut Vec<u8>,
        arr: &mut A,
    ) -> (r: Option<I>)
        requires
            self.formula().wf(),
        ensures
            old(stack_buffer)@.len() <= final(stack_buffer)@.len(),
            final(stack_buffer)@.subrange(0, old(stack_buffer)@.len() as int) == old(stack_buffer)@,
            (r is Some) == self.formula().syntax_complete(&self.db()),
            r is Some ==> {
                let s0 = old(arr).steps();
                let st = final(arr).steps();
                let nw = st.subrange(s0.len() as int, st.len() as int);
                &&& s0.len() <= st.len()
                &&& st.subrange(0, s0.len() as int) == s0
                &&& self.formula().syntax_steps(&self.db(), nw)
                &&& r == Some(nw.last().handle)
                &&& final(stack_buffer)@ == old(stack_buffer)@ + steps_bytes(nw)
            },
    {
        self.sub_build_syntax_proof(self.formula.root, stack_buffer, arr)
    }
}

/// Number of steps the syntax proof of node `n` records; for `k <= ` its
/// number of children, the steps of its first `k` children only.
pub open spec fn step_count(t: &Tree, n: nat, k: nat) -> nat
    decreases n, k,
{
    let c = t.children_of(n);
    if k > c.len() {
        step_count(t, n, c.len()) + 1
    } else if k == 0 {
        0
    } else {
        step_count(t, n, (k - 1) as nat) + if c[k - 1] < n {
            step_count(t, c[k - 1] as nat, t.children_of(c[k - 1] as nat).len() + 1)
        } else {
            0
        }
    }
}

proof fn lemma_steps_len<I>(db: &Database, t: &Tree, n: nat, k: nat, rec: Seq<BuiltStep<I>>)
    requires
        steps_from(db, t, n, k, rec),
    ensures
        rec.len() == step_count(t, n, k),
{
}

proof fn lemma_step_count_pos(t: &Tree, n: nat)
    ensures
        step_count(t, n, t.children_of(n).len() + 1) >= 1,
{
}

/// The expression bytes of recorded steps, one after another.
pub open spec fn steps_bytes<I>(rec: Seq<BuiltStep<I>>) -> Seq<u8>
    decreases rec.len(),
{
    if rec.len() == 0 {
        Seq::empty()
    } else {
        steps_bytes(rec.drop_last()) + rec.last().bytes
    }
}

proof fn lemma_steps_bytes_concat<I>(a: Seq<BuiltStep<I>>, b: Seq<BuiltStep<I>>)
    ensures
        steps_bytes(a + b) == steps_bytes(a) + steps_bytes(b),
    decreases b.len(),
{
    if b.len() == 0 {
        assert(a + b =~= a);
        assert(steps_bytes(a) + steps_bytes(b) =~= steps_bytes(a));
    } else {
        assert((a + b).drop_last() =~= a + b.drop_last());
        lemma_steps_bytes_concat(a, b.drop_last());
        assert(steps_bytes(a + b) =~= steps_bytes(a) + steps_bytes(b));
    }
}

/// `rec` is exactly the record of the syntax proof of node `n` (for
/// `k <= ` its number of children, of its first `k` children): the
/// children's steps in tree order, then one step citing the node's
/// statement, with the children's handles in the order of its floating
/// hypotheses, proving the sentinel form of the node's sub-formula.
pub open spec fn steps_from<I>(db: &Database, t: &Tree, n: nat, k: nat, rec: Seq<BuiltStep<I>>) -> bool
    decreases n, k,
{
    let c = t.children_of(n);
    if k > c.len() {
        &&& rec.len() == step_count(t, n, k)
        &&& rec.len() > 0
        &&& steps_from(db, t, n, c.len(), rec.drop_last())
        &&& match db.syntax_of(t.label_of(n)) {
            None => false,
            Some(ax) => {
                &&& rec.last().address == ax.address
                &&& rec.last().bytes == stack_bytes(db, flat_from(db, t, n, 0, 0)->0)
                &&& rec.last().hyps == Seq::new(
                    ax.floats@.len(),
                    |x: int| rec[step_count(t, n, (ax.floats@[x] + 1) as nat) - 1].handle,
                )
            },
        }
    } else if k == 0 {
        rec.len() == 0
    } else {
        let off = step_count(t, n, (k - 1) as nat);
        &&& rec.len() == step_count(t, n, k)
        &&& off <= rec.len()
        &&& steps_from(db, t, n, (k - 1) as nat, rec.subrange(0, off as int))
        &&& c[k - 1] < n ==> steps_from(db, t, c[k - 1] as nat, t.children_of(c[k - 1] as nat).len() + 1, rec.subrange(off as int, rec.len() as int))
    }
}

/// A term whose nodes also say whether they are variables.
pub enum Pat {
    Node(Label, bool, Seq<Pat>),
}

/// The term a flagged term stands for, flags dropped.
pub open spec fn erase(p: Pat) -> Term
    decreases p,
{
    match p {
        Pat::Node(l, _, a) => Term::App(
            l,
            Seq::new(a.len(), |i: int| if 0 <= i < a.len() { erase(a[i]) } else { Term::App(0, Seq::empty()) }),
        ),
    }
}

/// A flagged term with each variable node whose label `s` binds replaced
/// by its binding.
pub open spec fn pat_subst(p: Pat, s: Map<Label, Term>) -> Term
    decreases p,
{
    match p {
        Pat::Node(l, v, a) => if v && s.contains_key(l) {
            s[l]
        } else {
            Term::App(
                l,
                Seq::new(a.len(), |i: int| if 0 <= i < a.len() { pat_subst(a[i], s) } else { Term::App(0, Seq::empty()) }),
            )
        },
    }
}

/// A flagged term with each variable node whose label `s` binds replaced
/// by its binding, flags included; other nodes keep their own flags.
pub open spec fn pat_psubst(p: Pat, s: Map<Label, Pat>) -> Pat
    decreases p,
{
    match p {
        Pat::Node(l, v, a) => if v && s.contains_key(l) {
            s[l]
        } else {
            Pat::Node(
                l,
                v,
                Seq::new(a.len(), |i: int| if 0 <= i < a.len() { pat_psubst(a[i], s) } else { Pat::Node(0, false, Seq::empty()) }),
            )
        },
    }
}

/// Every variable node reached without passing below a variable has its
/// label bound in `s`.
pub open spec fn pat_bound(p: Pat, s: Map<Label, Term>) -> bool
    decreases p,
{
    match p {
        Pat::Node(l, v, a) => if v {
            s.contains_key(l)
        } else {
            forall|i: int| 0 <= i < a.len() ==> pat_bound(#[trigger] a[i], s)
        },
    }
}

/// The flagged term of node `n` of `t`, with `vars` the variable nodes.
pub open spec fn pat_in(t: &Tree, vars: Set<nat>, n: nat) -> Pat
    decreases n,
{
    let c = t.children_of(n);
    Pat::Node(
        t.label_of(n),
        vars.contains(n),
        Seq::new(c.len(), |k: int| if c[k] < n { pat_in(t, vars, c[k] as nat) } else { Pat::Node(0, false, Seq::empty()) }),
    )
}

/// Flagged terms of old nodes stay the same as the tree and the flags grow.
proof fn lemma_extends_pat(t1: &Tree, v1: Set<nat>, t2: &Tree, v2: Set<nat>, n: nat)
    requires
        t1.wf(),
        t2.extends(t1),
        n < t1.len(),
        forall|x: nat| x < t1.len() ==> (v1.contains(x) == v2.contains(x)),
    ensures
        pat_in(t2, v2, n) == pat_in(t1, v1, n),
    decreases n,
{
    assert(t2.nodes@[n as int] == t1.nodes@[n as int]);
    let c = t1.children_of(n);
    match (pat_in(t2, v2, n), pat_in(t1, v1, n)) {
        (Pat::Node(_, _, a2), Pat::Node(_, _, a1)) => {
            assert forall|k: int| 0 <= k < c.len() implies a2[k] == a1[k] by {
                assert(t1.nodes@[n as int].children@[k] < n);
                lemma_extends_pat(t1, v1, t2, v2, c[k] as nat);
            }
            assert(a2 =~= a1);
        },
    }
}

impl Formula {
    /// The flagged term of node `n`.
    pub closed spec fn pat_at(&self, n: nat) -> Pat {
        pat_in(&*self.tree, self.variables@, n)
    }

    /// `rec` is exactly the record of the formula's syntax proof, as
    /// `steps_from` states it.
    pub closed spec fn syntax_steps<I>(&self, db: &Database, rec: Seq<BuiltStep<I>>) -> bool {
        steps_from(db, &*self.tree, self.root as nat, self.tree.children_of(self.root as nat).len() + 1, rec)
    }

    /// The database describes every node of the formula, as `syntax_ok`
    /// states it.
    pub closed spec fn syntax_complete(&self, db: &Database) -> bool {
        syntax_ok(db, &*self.tree, self.root as nat)
    }

    /// The flagged term of the formula.
    pub closed spec fn pattern(&self) -> Pat {
        self.pat_at(self.root as nat)
    }

    proof fn lemma_pat_at(&self, n: nat, s: Map<Label, Term>)
        requires
            self.wf(),
            n < self.tree.len(),
        ensures
            erase(self.pat_at(n)) == self.tree.term_at(n),
            pat_subst(self.pat_at(n), s) == self.subst_at(n, s),
            pat_bound(self.pat_at(n), s) == self.bound_at(n, s),
        decreases n,
    {
        let c = self.tree.children_of(n);
        match self.pat_at(n) {
            Pat::Node(l, v, a) => {
                assert forall|k: int| 0 <= k < c.len() implies erase(a[k]) == self.tree.term_at(c[k] as nat)
                    && pat_subst(a[k], s) == self.subst_at(c[k] as nat, s)
                    && pat_bound(a[k], s) == self.bound_at(c[k] as nat, s)
                    && c[k] < n by {
                    lemma_term_args(&self.tree, n, k);
                    self.lemma_pat_at(c[k] as nat, s);
                }
                assert(erase(self.pat_at(n)).args() =~= self.tree.term_at(n).args());
                if !(v && s.contains_key(l)) {
                    assert(pat_subst(self.pat_at(n), s).args() =~= self.subst_at(n, s).args());
                }
                if !v {
                    if pat_bound(self.pat_at(n), s) {
                        assert forall|k: int| 0 <= k < c.len() implies (#[trigger] c[k] < n ==> self.bound_at(c[k] as nat, s)) by {
                            assert(pat_bound(a[k], s));
                        }
                    }
                    if self.bound_at(n, s) {
                        assert forall|k: int| 0 <= k < a.len() implies pat_bound(#[trigger] a[k], s) by {
                            assert(self.tree.children_of(n)[k] < n);
                        }
                    }
                }
            },
        }
    }
}

/// What a formula's views say in terms of its flagged term: its term is the
/// flagged term without flags, substitution replaces bound variable nodes,
/// and its variables are bound when every variable node is.
pub proof fn lemma_formula_views(f: &Formula, s: Map<Label, Term>)
    requires
        f.wf(),
    ensures
        f.term() == erase(f.pattern()),
        f.subst_term(s) == pat_subst(f.pattern(), s),
        f.binds_variables(s) == pat_bound(f.pattern(), s),
{
    f.lemma_pat_at(f.root as nat, s);
}

/// `k` labels a variable node reached from the root of `p` without passing
/// below a variable.
pub open spec fn pat_reaches(p: Pat, k: Label) -> bool
    decreases p,
{
    match p {
        Pat::Node(l, v, a) => if v {
            l == k
        } else {
            exists|i: int| 0 <= i < a.len() && pat_reaches(#[trigger] a[i], k)
        },
    }
}

/// Bindings for every variable of a flagged term bind each variable it
/// reaches.
proof fn lemma_bound_reaches(p: Pat, s: Map<Label, Term>, k: Label)
    requires
        pat_bound(p, s),
        pat_reaches(p, k),
    ensures
        s.contains_key(k),
    decreases p,
{
    match p {
        Pat::Node(l, v, a) => {
            if !v {
                let i = choose|i: int| 0 <= i < a.len() && pat_reaches(#[trigger] a[i], k);
                assert(pat_bound(a[i], s));
                lemma_bound_reaches(a[i], s, k);
            }
        },
    }
}

/// Round trip, exactly: when `sigma` binds exactly the variables of `f`,
/// the least bindings that unification of `g = f` under `sigma` against
/// `f` can find, starting from none, are `sigma` itself.
pub proof fn lemma_round_trip_bindings(f: &Formula, sigma: Map<Label, Term>, g: &Formula, found: Map<Label, Term>)
    requires
        f.wf(),
        f.binds_variables(sigma),
        forall|k: Label| #[trigger] sigma.contains_key(k) ==> pat_reaches(f.pattern(), k),
        g.term() == f.subst_term(sigma),
        g.unifies_under(f, Map::empty(), found),
        forall|s: Map<Label, Term>| #[trigger] g.unifies_under(f, Map::empty(), s) ==> found.submap_of(s),
    ensures
        found == sigma,
{
    lemma_substitute_then_unify(f, sigma, g);
    assert(found.submap_of(sigma));
    lemma_formula_views(f, found);
    assert forall|k: Label| #[trigger] sigma.contains_key(k) implies found.contains_key(k) by {
        lemma_bound_reaches(f.pattern(), found, k);
    }
    assert forall|k: Label| #[trigger] sigma.dom().contains(k) implies found.dom().contains(k) by {
        assert(sigma.contains_key(k));
    }
    assert forall|k: Label| #[trigger] found.dom().contains(k) implies sigma.dom().contains(k) && found[k] == sigma[k] by {}
    assert(found =~= sigma);
}

} // verus!
