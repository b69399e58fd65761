use metamath_knife::verify::{
    decode_compressed, verify, verify_proof, Diagnostic, Expr, ExprFragment, Frame, Hyp,
    ProofOp, ScopeResult, Segment, Statement, StatementAddress, StatementType,
};

fn addr(index: u32) -> StatementAddress {
    StatementAddress { segment_id: 0, index }
}

fn constant_expr(code: &[u8], text: &[u8]) -> Expr {
    Expr {
        typecode: code.to_vec(),
        tail: vec![ExprFragment::Constant(text.to_vec())],
    }
}

fn frame(label: &[u8], stype: StatementType, index: u32, target: Expr) -> Frame {
    let stub = match &target.tail[0] {
        ExprFragment::Constant(c) => c.clone(),
        ExprFragment::Var(_) => Vec::new(),
    };
    Frame {
        label: label.to_vec(),
        stype,
        valid_start: addr(index),
        valid_end: None,
        hypotheses: Vec::new(),
        mandatory_vars: Vec::new(),
        mandatory_dv: Vec::new(),
        optional_dv: Vec::new(),
        target,
        stub_expr: stub,
    }
}

const AX1: &[u8] = b"( ph -> ( ps -> ph ) ) ";

/// A database with `ax-1` and one theorem `th` claiming `target`.
fn scopes(target: &[u8]) -> ScopeResult {
    ScopeResult {
        frames: vec![
            frame(b"ax-1", StatementType::Axiom, 1, constant_expr(b"|-", AX1)),
            frame(b"th", StatementType::Provable, 5, constant_expr(b"|-", target)),
        ],
    }
}

fn theorem(proof: &[&[u8]]) -> Statement {
    Statement {
        address: addr(5),
        stype: StatementType::Provable,
        label: b"th".to_vec(),
        proof: proof.iter().map(|t| t.to_vec()).collect(),
    }
}

#[test]
fn uncompressed_single_axiom_step() {
    assert_eq!(verify_proof(&scopes(AX1), &theorem(&[b"ax-1"])), None);
}

#[test]
fn compressed_incomplete() {
    assert_eq!(
        verify_proof(&scopes(AX1), &theorem(&[b"(", b")", b"?"])),
        Some(Diagnostic::ProofIncomplete)
    );
}

#[test]
fn compressed_axiom_step() {
    assert_eq!(verify_proof(&scopes(AX1), &theorem(&[b"(", b"ax-1", b")", b"A"])), None);
    assert_eq!(
        verify_proof(&scopes(b"( ph -> ph ) "), &theorem(&[b"(", b"ax-1", b")", b"A"])),
        Some(Diagnostic::ProofWrongExprEnd)
    );
}

#[test]
fn missing_step() {
    assert_eq!(
        verify_proof(&scopes(AX1), &theorem(&[b"nonexistent"])),
        Some(Diagnostic::StepMissing(b"nonexistent".to_vec()))
    );
}

#[test]
fn varint_overflow() {
    assert_eq!(
        verify_proof(&scopes(AX1), &theorem(&[b"(", b"ax-1", b")", b"YYYYYYYYYYYYYYYYYYYY"])),
        Some(Diagnostic::ProofMalformedVarint)
    );
}

#[test]
fn save_before_step() {
    assert_eq!(
        verify_proof(&scopes(AX1), &theorem(&[b"(", b"ax-1", b")", b"ZA"])),
        Some(Diagnostic::ProofInvalidSave)
    );
}

#[test]
fn unterminated_roster() {
    assert_eq!(
        verify_proof(&scopes(AX1), &theorem(&[b"(", b"ax-1"])),
        Some(Diagnostic::ProofUnterminatedRoster)
    );
}

#[test]
fn empty_proof_has_no_steps() {
    assert_eq!(verify_proof(&scopes(AX1), &theorem(&[])), Some(Diagnostic::ProofNoSteps));
}

#[test]
fn two_steps_leave_excess() {
    assert_eq!(
        verify_proof(&scopes(AX1), &theorem(&[b"ax-1", b"ax-1"])),
        Some(Diagnostic::ProofExcessEnd)
    );
}

#[test]
fn step_out_of_range() {
    assert_eq!(
        verify_proof(&scopes(AX1), &theorem(&[b"(", b"ax-1", b")", b"B"])),
        Some(Diagnostic::StepOutOfRange)
    );
}

#[test]
fn later_statement_cannot_be_cited() {
    let mut s = scopes(AX1);
    s.frames[0].valid_start = addr(9);
    assert_eq!(
        verify_proof(&s, &theorem(&[b"ax-1"])),
        Some(Diagnostic::StepUsedBeforeDefinition(b"ax-1".to_vec()))
    );
}

#[test]
fn local_statement_out_of_scope() {
    let mut s = scopes(AX1);
    s.frames[0].valid_end = Some(3);
    assert_eq!(
        verify_proof(&s, &theorem(&[b"ax-1"])),
        Some(Diagnostic::StepUsedAfterScope(b"ax-1".to_vec()))
    );
}

#[test]
fn wrong_type_at_end() {
    let mut s = scopes(AX1);
    s.frames[1].target.typecode = b"wff".to_vec();
    assert_eq!(verify_proof(&s, &theorem(&[b"ax-1"])), Some(Diagnostic::ProofWrongTypeEnd));
}

/// `wph $f wff ph $.`, `wps $f wff ps $.`, `wi $a wff ( ph -> ps ) $.`.
fn wff_scopes(target: Vec<ExprFragment>, mandatory: Vec<&[u8]>, dv: Vec<(usize, usize)>) -> ScopeResult {
    let float = |label: &[u8], var: &[u8], index: u32| Frame {
        label: label.to_vec(),
        stype: StatementType::Floating,
        valid_start: addr(index),
        valid_end: None,
        hypotheses: Vec::new(),
        mandatory_vars: vec![var.to_vec()],
        mandatory_dv: Vec::new(),
        optional_dv: Vec::new(),
        target: Expr { typecode: b"wff".to_vec(), tail: vec![ExprFragment::Var(0)] },
        stub_expr: [var, b" "].concat(),
    };
    let hyp = |label: &[u8], index: usize| Hyp {
        label: label.to_vec(),
        is_float: true,
        variable_index: index,
        expr: Expr { typecode: b"wff".to_vec(), tail: vec![ExprFragment::Var(index)] },
    };
    let wi = Frame {
        label: b"wi".to_vec(),
        stype: StatementType::Axiom,
        valid_start: addr(3),
        valid_end: None,
        hypotheses: vec![hyp(b"wph", 0), hyp(b"wps", 1)],
        mandatory_vars: vec![b"ph".to_vec(), b"ps".to_vec()],
        mandatory_dv: dv,
        optional_dv: Vec::new(),
        target: Expr {
            typecode: b"wff".to_vec(),
            tail: vec![
                ExprFragment::Constant(b"( ".to_vec()),
                ExprFragment::Var(0),
                ExprFragment::Constant(b"-> ".to_vec()),
                ExprFragment::Var(1),
                ExprFragment::Constant(b") ".to_vec()),
            ],
        },
        stub_expr: Vec::new(),
    };
    let th = Frame {
        label: b"th".to_vec(),
        stype: StatementType::Provable,
        valid_start: addr(5),
        valid_end: None,
        hypotheses: vec![hyp(b"wph", 0), hyp(b"wps", 1)],
        mandatory_vars: mandatory.iter().map(|v| v.to_vec()).collect(),
        mandatory_dv: Vec::new(),
        optional_dv: Vec::new(),
        target: Expr { typecode: b"wff".to_vec(), tail: target },
        stub_expr: Vec::new(),
    };
    ScopeResult { frames: vec![float(b"wph", b"ph", 1), float(b"wps", b"ps", 2), wi, th] }
}

fn implication_target() -> Vec<ExprFragment> {
    vec![
        ExprFragment::Constant(b"( ".to_vec()),
        ExprFragment::Var(0),
        ExprFragment::Constant(b"-> ".to_vec()),
        ExprFragment::Var(1),
        ExprFragment::Constant(b") ".to_vec()),
    ]
}

#[test]
fn substitution_through_floating_hypotheses() {
    let s = wff_scopes(implication_target(), vec![b"ph", b"ps"], Vec::new());
    assert_eq!(verify_proof(&s, &theorem(&[b"wph", b"wps", b"wi"])), None);
    assert_eq!(
        verify_proof(&s, &theorem(&[b"wps", b"wph", b"wi"])),
        Some(Diagnostic::ProofWrongExprEnd)
    );
    assert_eq!(verify_proof(&s, &theorem(&[b"wph", b"wi"])), Some(Diagnostic::ProofUnderflow));
    assert_eq!(verify_proof(&s, &theorem(&[b"(", b"wi", b")", b"ABC"])), None);
}

#[test]
fn compressed_save_and_reuse() {
    let target = vec![
        ExprFragment::Constant(b"( ( ".to_vec()),
        ExprFragment::Var(0),
        ExprFragment::Constant(b"-> ".to_vec()),
        ExprFragment::Var(1),
        ExprFragment::Constant(b") -> ( ".to_vec()),
        ExprFragment::Var(0),
        ExprFragment::Constant(b"-> ".to_vec()),
        ExprFragment::Var(1),
        ExprFragment::Constant(b") ) ".to_vec()),
    ];
    let s = wff_scopes(target, vec![b"ph", b"ps"], Vec::new());
    assert_eq!(verify_proof(&s, &theorem(&[b"(", b"wi", b")", b"ABCZDC"])), None);
}

#[test]
fn distinct_variables_violated() {
    let s = wff_scopes(implication_target(), vec![b"ph", b"ps"], vec![(0, 1)]);
    assert_eq!(
        verify_proof(&s, &theorem(&[b"wph", b"wph", b"wi"])),
        Some(Diagnostic::ProofDvViolation)
    );
}

#[test]
fn float_type_checked() {
    let mut s = wff_scopes(implication_target(), vec![b"ph", b"ps"], Vec::new());
    s.frames[0].target.typecode = b"class".to_vec();
    assert_eq!(
        verify_proof(&s, &theorem(&[b"wph", b"wps", b"wi"])),
        Some(Diagnostic::StepFloatWrongType)
    );
}

#[test]
fn decode_digits() {
    let (ops, stop) = decode_compressed(b"UAZB");
    assert_eq!(ops, vec![ProofOp::Step(20), ProofOp::Save, ProofOp::Step(1)]);
    assert_eq!(stop, None);
    let (ops, stop) = decode_compressed(b"AU");
    assert_eq!(ops, vec![ProofOp::Step(0)]);
    assert_eq!(stop, Some(Diagnostic::ProofMalformedVarint));
    let (_, stop) = decode_compressed(b"U?");
    assert_eq!(stop, Some(Diagnostic::ProofMalformedVarint));
    let (ops, stop) = decode_compressed(b"A B?C");
    assert_eq!(ops, vec![ProofOp::Step(0), ProofOp::Step(1)]);
    assert_eq!(stop, Some(Diagnostic::ProofIncomplete));
}

#[test]
fn verify_collects_errors_per_segment() {
    let seg = Segment {
        id: 0,
        statements: vec![theorem(&[b"ax-1"]), Statement { address: addr(6), ..theorem(&[b"nonexistent"]) }],
    };
    let result = verify(&vec![seg], &scopes(AX1));
    let diags = result.diagnostics();
    assert_eq!(diags.len(), 1);
    assert_eq!(diags[0].0, addr(6));
    assert_eq!(diags[0].1, Diagnostic::StepMissing(b"nonexistent".to_vec()));
}

#[test]
fn optional_distinct_variables_allow_step() {
    let mut s = wff_scopes(implication_target(), vec![b"ph", b"ps"], vec![(0, 1)]);
    s.frames[3].optional_dv = vec![(b"ps".to_vec(), b"ph".to_vec())];
    assert_eq!(verify_proof(&s, &theorem(&[b"wph", b"wps", b"wi"])), None);
    s.frames[3].optional_dv = Vec::new();
    assert_eq!(
        verify_proof(&s, &theorem(&[b"wph", b"wps", b"wi"])),
        Some(Diagnostic::ProofDvViolation)
    );
}

#[test]
fn essential_hypothesis_checked() {
    let mut s = wff_scopes(implication_target(), vec![b"ph", b"ps"], Vec::new());
    s.frames[2].hypotheses.push(Hyp {
        label: b"min".to_vec(),
        is_float: false,
        variable_index: 0,
        expr: Expr { typecode: b"|-".to_vec(), tail: vec![ExprFragment::Var(0)] },
    });
    s.frames.push(Frame {
        label: b"e1".to_vec(),
        stype: StatementType::Essential,
        valid_start: addr(4),
        valid_end: None,
        hypotheses: Vec::new(),
        mandatory_vars: Vec::new(),
        mandatory_dv: Vec::new(),
        optional_dv: Vec::new(),
        target: Expr { typecode: b"|-".to_vec(), tail: vec![ExprFragment::Constant(b"ph ".to_vec())] },
        stub_expr: b"ph ".to_vec(),
    });
    s.frames.push(Frame { label: b"e2".to_vec(), stub_expr: b"ps ".to_vec(), ..s.frames[4].clone() });
    s.frames.push(Frame {
        label: b"e3".to_vec(),
        target: Expr { typecode: b"wff".to_vec(), tail: Vec::new() },
        ..s.frames[4].clone()
    });
    assert_eq!(verify_proof(&s, &theorem(&[b"wph", b"wps", b"e1", b"wi"])), None);
    assert_eq!(
        verify_proof(&s, &theorem(&[b"wph", b"wps", b"e2", b"wi"])),
        Some(Diagnostic::StepEssenWrong)
    );
    assert_eq!(
        verify_proof(&s, &theorem(&[b"wph", b"wps", b"e3", b"wi"])),
        Some(Diagnostic::StepEssenWrongType)
    );
}

#[test]
fn optional_distinct_variables_either_orientation() {
    let mut s = wff_scopes(implication_target(), vec![b"ph", b"ps"], vec![(0, 1)]);
    s.frames[3].optional_dv = vec![(b"ph".to_vec(), b"ps".to_vec())];
    let forward = verify_proof(&s, &theorem(&[b"wph", b"wps", b"wi"]));
    s.frames[3].optional_dv = vec![(b"ps".to_vec(), b"ph".to_vec())];
    let backward = verify_proof(&s, &theorem(&[b"wph", b"wps", b"wi"]));
    assert_eq!(forward, None);
    assert_eq!(forward, backward);
}

#[test]
fn same_inputs_same_outcome() {
    let s = scopes(AX1);
    let t = theorem(&[b"(", b"ax-1", b")", b"AA"]);
    assert_eq!(verify_proof(&s, &t), verify_proof(&s, &t));
    assert_eq!(verify_proof(&s, &t), Some(Diagnostic::ProofExcessEnd));
}
