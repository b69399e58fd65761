use metamath_knife::bitset::Bitset;
use metamath_knife::database::{Database, SyntaxAxiom};
use metamath_knife::formula::{
    Formula, FormulaBuilder, ProofBuilder, Substitutions, UnificationError, WorkVariableProvider,
};
use metamath_knife::verify::{ByteRange, StatementAddress};

const WFF: u32 = 0;
const IMP: u32 = 1;
const PH: u32 = 2;
const PS: u32 = 3;
const X: u32 = 4;
const Y: u32 = 5;

/// `(label a b)` with `a` and `b` variable leaves.
fn binary(label: u32, a: u32, b: u32) -> Formula {
    let mut fb = FormulaBuilder::new();
    fb.reduce(a, 0, 0, true);
    fb.reduce(b, 0, 0, true);
    fb.reduce(label, 2, 0, false);
    fb.build(WFF)
}

#[test]
fn unify_binds_each_variable() {
    let a = binary(IMP, PH, PS);
    let mut subs = Substitutions::new();
    assert_eq!(a.unify(&binary(IMP, X, Y), &mut subs), Ok(()));
    assert!(subs.get(X).unwrap().equals(&Formula::from_float(PH, WFF)));
    assert!(subs.get(Y).unwrap().equals(&Formula::from_float(PS, WFF)));
    assert_eq!(subs.iter().len(), 2);
}

#[test]
fn unify_repeated_variable() {
    let a = binary(IMP, PH, PH);
    let mut subs = Substitutions::new();
    assert_eq!(a.unify(&binary(IMP, X, X), &mut subs), Ok(()));
    assert!(subs.get(X).unwrap().equals(&Formula::from_float(PH, WFF)));
    assert!(subs.get(Y).is_none());
    let mut subs = Substitutions::new();
    assert_eq!(a.unify(&binary(IMP, X, Y), &mut subs), Ok(()));
    assert!(subs.get(X).unwrap().equals(&Formula::from_float(PH, WFF)));
    assert!(subs.get(Y).unwrap().equals(&Formula::from_float(PH, WFF)));
}

#[test]
fn unify_conflicting_bindings_fail() {
    let a = binary(IMP, PH, PS);
    let mut subs = Substitutions::new();
    assert_eq!(a.unify(&binary(IMP, X, X), &mut subs), Err(UnificationError::UnificationFailed));
}

#[test]
fn unify_label_mismatch_fails() {
    let a = binary(IMP, PH, PS);
    let mut subs = Substitutions::new();
    assert_eq!(a.unify(&binary(WFF, X, Y), &mut subs), Err(UnificationError::UnificationFailed));
}

#[test]
fn substitute_then_unify_round_trip() {
    let pattern = binary(IMP, X, Y);
    let mut sigma = Substitutions::new();
    sigma.insert(X, binary(IMP, PH, PS));
    sigma.insert(Y, Formula::from_float(PS, WFF));
    let g = pattern.substitute(&sigma);
    let mut expected = FormulaBuilder::new();
    expected.reduce(PH, 0, 0, true);
    expected.reduce(PS, 0, 0, true);
    expected.reduce(IMP, 2, 0, false);
    expected.reduce(PS, 0, 0, true);
    expected.reduce(IMP, 2, 0, false);
    assert!(g.equals(&expected.build(WFF)));
    let mut found = Substitutions::new();
    assert_eq!(g.unify(&pattern, &mut found), Ok(()));
    assert!(found.get(X).unwrap().equals(&binary(IMP, PH, PS)));
    assert!(found.get(Y).unwrap().equals(&Formula::from_float(PS, WFF)));
    assert!(pattern.substitute(&found).equals(&g));
}

#[test]
fn equality_relation() {
    let a = binary(IMP, PH, PS);
    let b = binary(IMP, PH, PS);
    let c = binary(IMP, PS, PH);
    assert!(a.equals(&a));
    assert!(a.equals(&b) && b.equals(&a));
    assert!(!a.equals(&c));
    assert!(a.is_singleton() == false);
    assert!(Formula::from_float(PH, WFF).is_singleton());
}

#[test]
fn paths_and_typecode() {
    let a = binary(IMP, PH, PS);
    assert_eq!(a.get_by_path(&[]), Some(IMP));
    assert_eq!(a.get_by_path(&[0]), Some(PH));
    assert_eq!(a.get_by_path(&[1]), Some(PS));
    assert_eq!(a.get_by_path(&[2]), None);
    assert_eq!(a.get_by_path(&[0, 0]), None);
    assert_eq!(a.get_typecode(), WFF);
}

#[test]
fn reduce_with_offset_keeps_upper_items() {
    let mut fb = FormulaBuilder::new();
    fb.reduce(PH, 0, 0, true);
    fb.reduce(PS, 0, 0, true);
    fb.reduce(X, 0, 0, true);
    fb.reduce(IMP, 2, 1, false);
    fb.reduce(IMP, 2, 0, false);
    let f = fb.build(WFF);
    assert_eq!(f.get_by_path(&[0]), Some(IMP));
    assert_eq!(f.get_by_path(&[0, 1]), Some(PS));
    assert_eq!(f.get_by_path(&[1]), Some(X));
}

#[test]
fn extend_prefers_new_bindings() {
    let mut a = Substitutions::new();
    a.insert(X, Formula::from_float(PH, WFF));
    let mut b = Substitutions::new();
    b.insert(X, Formula::from_float(PS, WFF));
    b.insert(Y, Formula::from_float(PH, WFF));
    a.extend(&b);
    assert!(a.get(X).unwrap().equals(&Formula::from_float(PS, WFF)));
    assert!(a.get(Y).unwrap().equals(&Formula::from_float(PH, WFF)));
    let old = a.insert(Y, Formula::from_float(PS, WFF));
    assert!(old.unwrap().equals(&Formula::from_float(PH, WFF)));
}

struct Counter {
    next: u32,
    fail: bool,
}

impl WorkVariableProvider<String> for Counter {
    fn new_work_variable(&mut self, _label: u32) -> Result<(u32, u32), String> {
        if self.fail {
            return Err("exhausted".to_string());
        }
        self.next += 1;
        Ok((WFF, 100 + self.next))
    }
}

#[test]
fn complete_with_work_variables() {
    let f = binary(IMP, X, Y);
    let mut subs = Substitutions::new();
    subs.insert(X, Formula::from_float(PH, WFF));
    let mut wvp = Counter { next: 0, fail: false };
    assert_eq!(f.complete_substitutions(&mut subs, &mut wvp), Ok(()));
    assert!(subs.get(X).unwrap().equals(&Formula::from_float(PH, WFF)));
    assert!(subs.get(Y).unwrap().equals(&Formula::from_float(101, WFF)));
    let mut empty = Substitutions::new();
    let mut failing = Counter { next: 0, fail: true };
    assert_eq!(f.complete_substitutions(&mut empty, &mut failing), Err("exhausted".to_string()));
}

fn names_db() -> Database {
    let names: Vec<Vec<u8>> =
        vec![b"wff".to_vec(), b"wi".to_vec(), b"wph".to_vec(), b"wps".to_vec(), b"(".to_vec(),
             b"->".to_vec(), b")".to_vec(), b"ph".to_vec(), b"ps".to_vec()];
    let at = StatementAddress { segment_id: 0, index: 0 };
    let var = |v: u32| SyntaxAxiom { address: at, typecode: WFF, tokens: vec![(v, true)], floats: vec![] };
    Database {
        names,
        axioms: vec![
            None,
            Some(SyntaxAxiom {
                address: at,
                typecode: WFF,
                tokens: vec![(4, false), (7, true), (5, false), (8, true), (6, false)],
                floats: vec![0, 1],
            }),
            Some(var(7)),
            Some(var(8)),
        ],
    }
}

#[test]
fn flatten_and_sentinel_bytes() {
    let db = names_db();
    let f = binary(IMP, PH, PS);
    let r = f.as_ref(&db);
    assert_eq!(r.iter(), Some(vec![4, 7, 5, 8, 6]));
    let mut buf = vec![1u8];
    let range = r.append_to_stack_buffer(&mut buf);
    assert_eq!(range.start, 1);
    assert_eq!(range.end, buf.len());
    assert_eq!(buf, vec![1u8, b'(' | 0x80, b'p', b'h' | 0x80, b'-', b'>' | 0x80, b'p', b's' | 0x80, b')' | 0x80]);
    let unknown = Formula::from_float(X, WFF);
    assert_eq!(unknown.as_ref(&db).iter(), None);
}

#[test]
fn bitset_membership_union_and_order() {
    let mut a = Bitset::new();
    a.set_bit(3);
    a.set_bit(200);
    a.set_bit(3);
    let mut b = Bitset::new();
    b.set_bit(64);
    b.set_bit(1000);
    assert!(a.has_bit(3) && a.has_bit(200) && !a.has_bit(64));
    a.union_with(&b);
    assert!(a.has_bit(64) && a.has_bit(1000) && a.has_bit(3) && !a.has_bit(999));
    assert_eq!(a.to_vec(), vec![3, 64, 200, 1000]);
    assert_eq!(Bitset::new().to_vec(), Vec::<usize>::new());
}


#[test]
fn sexpr_rendering() {
    let db = names_db();
    let f = binary(IMP, PH, PS);
    assert_eq!(f.as_ref(&db).as_sexpr(), "(wi wph wps)".to_string());
    let mut out = b"> ".to_vec();
    Formula::from_float(PH, WFF).as_ref(&db).write_sexpr(&mut out);
    assert_eq!(out, b"> wph".to_vec());
    let mut fb = FormulaBuilder::new();
    fb.reduce(PH, 0, 0, true);
    fb.reduce(PS, 0, 0, true);
    fb.reduce(PH, 0, 0, true);
    fb.reduce(IMP, 2, 0, false);
    fb.reduce(IMP, 2, 0, false);
    assert_eq!(fb.build(WFF).as_ref(&db).as_sexpr(), "(wi wph (wi wps wph))".to_string());
}

#[test]
fn labels_in_depth_first_order() {
    let mut fb = FormulaBuilder::new();
    fb.reduce(PH, 0, 0, true);
    fb.reduce(PS, 0, 0, true);
    fb.reduce(PH, 0, 0, true);
    fb.reduce(IMP, 2, 0, false);
    fb.reduce(IMP, 2, 0, false);
    let f = fb.build(WFF);
    assert_eq!(
        f.labels_iter(),
        vec![(IMP, false), (PH, true), (IMP, false), (PS, true), (PH, true)]
    );
}

struct Recorder {
    steps: Vec<(u32, Vec<usize>, Vec<u8>)>,
}

impl ProofBuilder<usize> for Recorder {
    fn build(&mut self, address: StatementAddress, hyps: Vec<usize>, buffer: &Vec<u8>, range: ByteRange) -> usize {
        self.steps.push((address.index, hyps, buffer[range.start..range.end].to_vec()));
        self.steps.len() - 1
    }
}

#[test]
fn syntax_proof_orders_floating_hypotheses() {
    let mut db = names_db();
    let f = binary(IMP, PH, PS);
    if let Some(ax) = db.axioms[IMP as usize].as_mut() {
        ax.address.index = 7;
        ax.floats = vec![1, 0];
    }
    let mut rec = Recorder { steps: Vec::new() };
    let mut buf = Vec::new();
    let last = f.as_ref(&db).build_syntax_proof(&mut buf, &mut rec);
    assert_eq!(last, Some(2));
    assert_eq!(rec.steps[0].2, vec![b'p', b'h' | 0x80]);
    assert_eq!(rec.steps[1].2, vec![b'p', b's' | 0x80]);
    assert_eq!(rec.steps[2].0, 7);
    assert_eq!(rec.steps[2].1, vec![1, 0]);
    let unknown = Formula::from_float(X, WFF);
    assert_eq!(unknown.as_ref(&db).build_syntax_proof(&mut buf, &mut rec), None);
}

#[test]
fn failed_unification_keeps_old_bindings() {
    let a = binary(IMP, PH, PS);
    let mut subs = Substitutions::new();
    subs.insert(WFF, Formula::from_float(PH, WFF));
    assert_eq!(a.unify(&binary(IMP, X, X), &mut subs), Err(UnificationError::UnificationFailed));
    assert!(subs.get(WFF).unwrap().equals(&Formula::from_float(PH, WFF)));
    for (k, _) in subs.iter() {
        assert!(k == WFF || k == X);
    }
}

#[test]
fn completion_of_bound_formula_changes_nothing() {
    let f = binary(IMP, X, Y);
    let mut subs = Substitutions::new();
    subs.insert(X, Formula::from_float(PH, WFF));
    subs.insert(Y, Formula::from_float(PS, WFF));
    let mut failing = Counter { next: 0, fail: true };
    assert_eq!(f.complete_substitutions(&mut subs, &mut failing), Ok(()));
    assert_eq!(subs.iter().len(), 2);
    assert!(subs.get(Y).unwrap().equals(&Formula::from_float(PS, WFF)));
}

#[test]
fn substitution_copies_variable_flags() {
    const U: u32 = 20;
    const V: u32 = 21;
    let pattern = binary(IMP, X, Y);
    let mut sigma = Substitutions::new();
    sigma.insert(X, binary(IMP, U, V));
    let p2 = pattern.substitute(&sigma);
    let mut fb = FormulaBuilder::new();
    fb.reduce(PH, 0, 0, true);
    fb.reduce(PS, 0, 0, true);
    fb.reduce(IMP, 2, 0, false);
    fb.reduce(PH, 0, 0, true);
    fb.reduce(IMP, 2, 0, false);
    let target = fb.build(WFF);
    let mut found = Substitutions::new();
    assert_eq!(target.unify(&p2, &mut found), Ok(()));
    assert!(found.get(U).unwrap().equals(&Formula::from_float(PH, WFF)));
    assert!(found.get(V).unwrap().equals(&Formula::from_float(PS, WFF)));
    assert!(found.get(Y).unwrap().equals(&Formula::from_float(PH, WFF)));
    assert!(found.get(X).is_none());
}

struct Logger {
    asked: Vec<u32>,
    fail_on: u32,
}

impl WorkVariableProvider<u32> for Logger {
    fn new_work_variable(&mut self, label: u32) -> Result<(u32, u32), u32> {
        self.asked.push(label);
        if label == self.fail_on {
            return Err(label);
        }
        Ok((WFF + 7, 200 + label))
    }
}

#[test]
fn completion_requests_in_order_and_binds_answers() {
    let mut fb = FormulaBuilder::new();
    fb.reduce(X, 0, 0, true);
    fb.reduce(Y, 0, 0, true);
    fb.reduce(X, 0, 0, true);
    fb.reduce(IMP, 2, 0, false);
    fb.reduce(IMP, 2, 0, false);
    let f = fb.build(WFF);
    let mut subs = Substitutions::new();
    let mut wvp = Logger { asked: Vec::new(), fail_on: 999 };
    assert_eq!(f.complete_substitutions(&mut subs, &mut wvp), Ok(()));
    assert_eq!(wvp.asked, vec![X, Y]);
    assert!(subs.get(X).unwrap().equals(&Formula::from_float(200 + X, WFF)));
    assert_eq!(subs.get(Y).unwrap().get_typecode(), WFF + 7);
    let mut subs = Substitutions::new();
    let mut failing = Logger { asked: Vec::new(), fail_on: Y };
    assert_eq!(f.complete_substitutions(&mut subs, &mut failing), Err(Y));
    assert_eq!(failing.asked, vec![X, Y]);
    assert!(subs.get(X).is_some());
    assert!(subs.get(Y).is_none());
}

#[test]
fn singleton_renderings() {
    let db = names_db();
    let f = Formula::from_float(PH, WFF);
    assert_eq!(f.labels_iter(), vec![(PH, true)]);
    assert_eq!(f.as_ref(&db).as_sexpr(), "wph".to_string());
}
