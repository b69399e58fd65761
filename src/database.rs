//! What formulas need from a database: the name of each atom, and for each
//! syntax label the statement that defines it.
use vstd::prelude::*;
use crate::tree::Label;
use crate::verify::StatementAddress;

verus! {

/// A syntax axiom (or a floating hypothesis) as formulas read it.
#[derive(Clone, Debug)]
pub struct SyntaxAxiom {
    /// Where the statement stands.
    pub address: StatementAddress,
    /// The typecode atom of its expression.
    pub typecode: Label,
    /// The math tokens after the typecode, each with whether it is a variable.
    pub tokens: Vec<(Label, bool)>,
    /// For each floating hypothesis of its frame, in frame order, the index
    /// of the variable it types among the variables of the expression.
    pub floats: Vec<usize>,
}

/// Names of atoms, and the statement of each label.
#[derive(Clone, Debug)]
pub struct Database {
    /// The bytes of the name of each atom.
    pub names: Vec<Vec<u8>>,
    /// The statement each label atom stands for, if any.
    pub axioms: Vec<Option<SyntaxAxiom>>,
}

impl Database {
    /// The statement of label `l`.
    pub open spec fn syntax_of(&self, l: Label) -> Option<SyntaxAxiom> {
        if (l as int) < self.axioms@.len() {
            self.axioms@[l as int]
        } else {
            None
        }
    }

    /// The name of atom `a`, empty when unknown.
    pub open spec fn name(&self, a: Label) -> Seq<u8> {
        if (a as int) < self.names@.len() {
            self.names@[a as int]@
        } else {
            Seq::empty()
        }
    }

    /// Looks up the statement of label `l`.
    pub fn get_statement(&self, l: Label) -> (r: Option<&SyntaxAxiom>)
        ensures
            match r {
                Some(a) => self.syntax_of(l) == Some(*a),
                None => self.syntax_of(l) is None,
            },
    {
        if (l as usize) < self.axioms.len() {
            match &self.axioms[l as usize] {
                Some(a) => Some(a),
                None => None,
            }
        } else {
            None
        }
    }

    /// The name of atom `a`.
    pub fn atom_name(&self, a: Label) -> (r: &[u8])
        ensures
            r@ == self.name(a),
    {
        if (a as usize) < self.names.len() {
            self.names[a as usize].as_slice()
        } else {
            &[]
        }
    }
}

} // verus!
