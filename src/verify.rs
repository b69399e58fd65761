//! The proof stack machine: replays compressed and uncompressed proofs of
//! `$p` statements against the frames computed by scope analysis.
use vstd::prelude::*;
use crate::bitset::Bitset;

verus! {

/// The kind of a statement, as far as proofs care.
#[derive(Clone, Copy, Debug, PartialEq, Eq, Structural)]
pub enum StatementType {
    Axiom,
    Provable,
    Floating,
    Essential,
    Other,
}

/// A position in database order: segments are numbered in database order,
/// and statements are numbered within their segment.
#[derive(Clone, Copy, Debug, PartialEq, Eq, Structural)]
pub struct StatementAddress {
    pub segment_id: u32,
    pub index: u32,
}

/// `a` comes strictly before `b` in database order.
pub open spec fn precedes(a: StatementAddress, b: StatementAddress) -> bool {
    a.segment_id < b.segment_id || (a.segment_id == b.segment_id && a.index < b.index)
}

/// One piece of an expression tail: a mandatory variable, by its index, or
/// the bytes of literal tokens (each ending with a byte whose high bit is set).
#[derive(Clone, Debug)]
pub enum ExprFragment {
    Var(usize),
    Constant(Vec<u8>),
}

/// An expression: its typecode and its tail.
#[derive(Clone, Debug)]
pub struct Expr {
    pub typecode: Vec<u8>,
    pub tail: Vec<ExprFragment>,
}

/// A hypothesis of a frame: floating ones assign a typecode to the mandatory
/// variable `variable_index`.
#[derive(Clone, Debug)]
pub struct Hyp {
    pub label: Vec<u8>,
    pub is_float: bool,
    pub variable_index: usize,
    pub expr: Expr,
}

/// What scope analysis computed for one statement.
#[derive(Clone, Debug)]
pub struct Frame {
    pub label: Vec<u8>,
    pub stype: StatementType,
    /// Where the statement becomes usable.
    pub valid_start: StatementAddress,
    /// Index within the start segment at which a local statement stops
    /// being usable; `None` for a global one.
    pub valid_end: Option<u32>,
    pub hypotheses: Vec<Hyp>,
    pub mandatory_vars: Vec<Vec<u8>>,
    pub mandatory_dv: Vec<(usize, usize)>,
    pub optional_dv: Vec<(Vec<u8>, Vec<u8>)>,
    pub target: Expr,
    /// The target expression in the sentinel byte format.
    pub stub_expr: Vec<u8>,
}

/// Every `Var` of `tail` names one of `n` variables.
pub open spec fn tail_wf(tail: Seq<ExprFragment>, n: nat) -> bool {
    forall|i: int|
        0 <= i < tail.len() ==> match #[trigger] tail[i] {
            ExprFragment::Var(ix) => ix < n,
            ExprFragment::Constant(_) => true,
        }
}

impl Frame {
    /// Indices held by the frame stay within its mandatory variables.
    pub open spec fn wf(&self) -> bool {
        let n = self.mandatory_vars@.len();
        &&& tail_wf(self.target.tail@, n)
        &&& forall|i: int|
            0 <= i < self.hypotheses@.len() ==> {
                &&& (#[trigger] self.hypotheses@[i]).is_float ==> self.hypotheses@[i].variable_index
                    < n
                &&& tail_wf(self.hypotheses@[i].expr.tail@, n)
            }
        &&& forall|i: int|
            0 <= i < self.mandatory_dv@.len() ==> (#[trigger] self.mandatory_dv@[i]).0 < n
                && self.mandatory_dv@[i].1 < n
    }
}

/// The frames of a database, looked up by label.
#[derive(Clone, Debug)]
pub struct ScopeResult {
    pub frames: Vec<Frame>,
}

impl ScopeResult {
    /// Frames are well formed and their labels are distinct.
    pub open spec fn wf(&self) -> bool {
        &&& forall|i: int| 0 <= i < self.frames@.len() ==> (#[trigger] self.frames@[i]).wf()
        &&& forall|i: int, j: int|
            0 <= i < j < self.frames@.len() ==> (#[trigger] self.frames@[i]).label@
                != (#[trigger] self.frames@[j]).label@
    }

    /// The index of the frame labelled `label`.
    pub open spec fn index_of(&self, label: Seq<u8>) -> Option<int> {
        if exists|i: int| 0 <= i < self.frames@.len() && self.frames@[i].label@ == label {
            Some(choose|i: int| 0 <= i < self.frames@.len() && self.frames@[i].label@ == label)
        } else {
            None
        }
    }

    /// Looks up the frame of a label.
    pub fn get(&self, label: &[u8]) -> (r: Option<usize>)
        requires
            self.wf(),
        ensures
            match r {
                Some(i) => self.index_of(label@) == Some(i as int),
                None => self.index_of(label@) is None,
            },
    {
        let mut i: usize = 0;
        while i < self.frames.len()
            invariant
                self.wf(),
                i <= self.frames@.len(),
                forall|j: int| 0 <= j < i ==> self.frames@[j].label@ != label@,
            decreases self.frames@.len() - i,
        {
            if bytes_eq(self.frames[i].label.as_slice(), label) {
                proof {
                    let c = choose|j: int|
                        0 <= j < self.frames@.len() && self.frames@[j].label@ == label@;
                    if c != i as int {
                        assert(self.frames@[c].label@ == label@);
                        assert(self.frames@[i as int].label@ == label@);
                        if c < i {
                        } else {
                            assert(self.frames@[i as int].label@ != self.frames@[c].label@);
                        }
                    }
                }
                return Some(i);
            }
            i = i + 1;
        }
        None
    }
}

/// An error found in a proof.
#[derive(Clone, Debug, PartialEq, Eq)]
pub enum Diagnostic {
    StepMissing(Vec<u8>),
    StepUsedBeforeDefinition(Vec<u8>),
    StepUsedAfterScope(Vec<u8>),
    StepOutOfRange,
    ProofUnderflow,
    StepFloatWrongType,
    StepEssenWrongType,
    StepEssenWrong,
    ProofDvViolation,
    ProofNoSteps,
    ProofExcessEnd,
    ProofWrongTypeEnd,
    ProofWrongExprEnd,
    ProofUnterminatedRoster,
    ProofMalformedVarint,
    ProofInvalidSave,
    ProofIncomplete,
}

/// Byte-wise equality.
pub fn bytes_eq(a: &[u8], b: &[u8]) -> (r: bool)
    ensures
        r == (a@ == b@),
{
    if a.len() != b.len() {
        return false;
    }
    let mut i: usize = 0;
    while i < a.len()
        invariant
            a@.len() == b@.len(),
            i <= a@.len(),
            forall|j: int| 0 <= j < i ==> a@[j] == b@[j],
        decreases a@.len() - i,
    {
        if a[i] != b[i] {
            return false;
        }
        i = i + 1;
    }
    proof {
        assert(a@ =~= b@);
    }
    true
}

/// Appends `src[start..end]` to `target`.
pub fn append_range(target: &mut Vec<u8>, src: &[u8], start: usize, end: usize)
    requires
        start <= end <= src@.len(),
    ensures
        final(target)@ == old(target)@ + src@.subrange(start as int, end as int),
{
    let ghost pre = target@;
    let mut i: usize = start;
    while i < end
        invariant
            start <= i <= end <= src@.len(),
            target@ == pre + src@.subrange(start as int, i as int),
        decreases end - i,
    {
        target.push(src[i]);
        proof {
            assert(src@.subrange(start as int, i + 1) =~= src@.subrange(start as int, i as int).push(
                src@[i as int],
            ));
        }
        i = i + 1;
    }
}

/// A copy of a byte string.
pub fn copy_bytes(src: &[u8]) -> (r: Vec<u8>)
    ensures
        r@ == src@,
{
    let mut r: Vec<u8> = Vec::new();
    append_range(&mut r, src, 0, src.len());
    proof {
        assert(src@.subrange(0, src@.len() as int) =~= src@);
    }
    r
}

/// The position of `token` in `names`.
fn find_token(names: &Vec<Vec<u8>>, token: &[u8]) -> (r: Option<usize>)
    ensures
        match r {
            Some(i) => i < names@.len() && names@[i as int]@ == token@,
            None => forall|j: int| 0 <= j < names@.len() ==> names@[j]@ != token@,
        },
{
    let mut i: usize = 0;
    while i < names.len()
        invariant
            i <= names@.len(),
            forall|j: int| 0 <= j < i ==> names@[j]@ != token@,
        decreases names@.len() - i,
    {
        if bytes_eq(names[i].as_slice(), token) {
            return Some(i);
        }
        i = i + 1;
    }
    None
}

/// No name occurs twice.
pub open spec fn distinct_names(names: Seq<Vec<u8>>) -> bool {
    forall|i: int, j: int| 0 <= i < j < names.len() ==> (#[trigger] names[i])@ != (#[trigger] names[j])@
}

/// The indices of `names` that hold one of `vars`.
pub open spec fn var_bits(names: Seq<Vec<u8>>, vars: Seq<Vec<u8>>) -> Set<nat> {
    Set::new(|j: nat| j < names.len() && exists|m: int| 0 <= m < vars.len() && names[j as int]@ == vars[m]@)
}

/// Interns a variable token, giving it a row of `dv_map` on first sight.
fn map_var(var2bit: &mut Vec<Vec<u8>>, dv_map: &mut Vec<Bitset>, token: &[u8]) -> (r: usize)
    requires
        distinct_names(old(var2bit)@),
        old(var2bit)@.len() == old(dv_map)@.len(),
        forall|i: int| 0 <= i < old(dv_map)@.len() ==> (#[trigger] old(dv_map)@[i]).wf(),
        dv_symmetric(old(dv_map)@),
    ensures
        distinct_names(final(var2bit)@),
        final(var2bit)@.len() > old(var2bit)@.len() ==> forall|i: int|
            0 <= i < old(var2bit)@.len() ==> old(var2bit)@[i]@ != token@,
        dv_symmetric(final(dv_map)@),
        final(var2bit)@.len() == final(dv_map)@.len(),
        forall|i: int| 0 <= i < final(dv_map)@.len() ==> (#[trigger] final(dv_map)@[i]).wf(),
        r < final(var2bit)@.len(),
        final(var2bit)@[r as int]@ == token@,
        old(var2bit)@.len() <= final(var2bit)@.len() <= old(var2bit)@.len() + 1,
        forall|i: int| 0 <= i < old(dv_map)@.len() ==> (#[trigger] final(dv_map)@[i]) == old(dv_map)@[i],
        forall|i: int| 0 <= i < old(var2bit)@.len() ==> (#[trigger] final(var2bit)@[i]) == old(var2bit)@[i],
        forall|i: int|
            old(dv_map)@.len() <= i < final(dv_map)@.len() ==> (#[trigger] final(dv_map)@[i])@
                == Set::<nat>::empty(),
        (exists|i: int| 0 <= i < old(var2bit)@.len() && old(var2bit)@[i]@ == token@) ==> (r
            < old(var2bit)@.len() && final(var2bit)@ == old(var2bit)@),
{
    match find_token(var2bit, token) {
        Some(i) => {
            return i;
        },
        None => {},
    }
    let i = var2bit.len();
    let ghost d0 = dv_map@;
    let ghost v0 = var2bit@;
    var2bit.push(copy_bytes(token));
    dv_map.push(Bitset::new());
    proof {
        assert forall|a: int, b: int| 0 <= a < b < var2bit@.len() implies (#[trigger] var2bit@[a])@ != (#[trigger] var2bit@[b])@ by {
            if b < v0.len() {
                assert(var2bit@[a] == v0[a] && var2bit@[b] == v0[b]);
            } else {
                assert(var2bit@[a] == v0[a]);
            }
        }
        assert forall|a: int, j: nat|
            0 <= a < dv_map@.len() && (#[trigger] dv_map@[a]@.contains(j)) implies j < dv_map@.len()
                && dv_map@[j as int]@.contains(a as nat) by {
            if a < d0.len() {
                assert(d0[a]@.contains(j));
            }
        }
    }
    i
}

/// A half-open range of bytes in a buffer.
#[derive(Clone, Copy, Debug, PartialEq, Eq, Structural)]
pub struct ByteRange {
    pub start: usize,
    pub end: usize,
}

/// The range lies within a buffer of `len` bytes.
pub open spec fn range_in(r: ByteRange, len: nat) -> bool {
    r.start <= r.end && r.end <= len
}

/// The bytes of `buf` that `r` covers.
pub open spec fn range_bytes(buf: Seq<u8>, r: ByteRange) -> Seq<u8> {
    buf.subrange(r.start as int, r.end as int)
}

/// A tail with each variable replaced by the bytes given for it.
pub open spec fn subst_spec(tail: Seq<ExprFragment>, vals: Seq<Seq<u8>>) -> Seq<u8>
    decreases tail.len(),
{
    if tail.len() == 0 {
        Seq::empty()
    } else {
        subst_spec(tail.drop_last(), vals) + match tail.last() {
            ExprFragment::Var(ix) => vals[ix as int],
            ExprFragment::Constant(c) => c@,
        }
    }
}

/// A tail with each variable replaced by its name followed by a space.
pub open spec fn subst_raw_spec(tail: Seq<ExprFragment>, names: Seq<Seq<u8>>) -> Seq<u8>
    decreases tail.len(),
{
    if tail.len() == 0 {
        Seq::empty()
    } else {
        subst_raw_spec(tail.drop_last(), names) + match tail.last() {
            ExprFragment::Var(ix) => names[ix as int].push(32u8),
            ExprFragment::Constant(c) => c@,
        }
    }
}

/// The union of the sets of the variables that a tail mentions.
pub open spec fn subst_vars_spec(tail: Seq<ExprFragment>, sets: Seq<Set<nat>>) -> Set<nat>
    decreases tail.len(),
{
    if tail.len() == 0 {
        Set::empty()
    } else {
        subst_vars_spec(tail.drop_last(), sets).union(
            match tail.last() {
                ExprFragment::Var(ix) => sets[ix as int],
                ExprFragment::Constant(_) => Set::empty(),
            },
        )
    }
}

/// The bytes of each range of `vars` in `buf`.
pub open spec fn ranges_bytes(vars: Seq<ByteRange>, buf: Seq<u8>) -> Seq<Seq<u8>> {
    Seq::new(vars.len(), |i: int| range_bytes(buf, vars[i]))
}

/// Appends `expr` to `target`, each variable taken from its range of `var_buffer`.
fn do_substitute(
    target: &mut Vec<u8>,
    expr: &Vec<ExprFragment>,
    vars: &Vec<ByteRange>,
    var_buffer: &[u8],
)
    requires
        tail_wf(expr@, vars@.len()),
        forall|i: int| 0 <= i < vars@.len() ==> range_in(#[trigger] vars@[i], var_buffer@.len()),
    ensures
        final(target)@ == old(target)@ + subst_spec(expr@, ranges_bytes(vars@, var_buffer@)),
{
    let ghost pre = target@;
    let ghost vals = ranges_bytes(vars@, var_buffer@);
    let mut i: usize = 0;
    while i < expr.len()
        invariant
            i <= expr@.len(),
            tail_wf(expr@, vars@.len()),
            forall|j: int| 0 <= j < vars@.len() ==> range_in(#[trigger] vars@[j], var_buffer@.len()),
            vals == ranges_bytes(vars@, var_buffer@),
            target@ == pre + subst_spec(expr@.take(i as int), vals),
        decreases expr@.len() - i,
    {
        proof {
            assert(expr@.take(i + 1).drop_last() =~= expr@.take(i as int));
        }
        match &expr[i] {
            ExprFragment::Var(ix) => {
                let r = vars[*ix];
                append_range(target, var_buffer, r.start, r.end);
            },
            ExprFragment::Constant(c) => {
                append_range(target, c.as_slice(), 0, c.len());
                proof {
                    assert(c@.subrange(0, c@.len() as int) =~= c@);
                }
            },
        }
        proof {
            assert(target@ =~= pre + subst_spec(expr@.take(i + 1), vals));
        }
        i = i + 1;
    }
    proof {
        assert(expr@.take(i as int) =~= expr@);
    }
}

/// Appends `expr` to `target`, each variable written as its name and a space.
fn do_substitute_raw(target: &mut Vec<u8>, expr: &Vec<ExprFragment>, vars: &Vec<Vec<u8>>)
    requires
        tail_wf(expr@, vars@.len()),
    ensures
        final(target)@ == old(target)@ + subst_raw_spec(
            expr@,
            Seq::new(vars@.len(), |i: int| vars@[i]@),
        ),
{
    let ghost pre = target@;
    let ghost names = Seq::new(vars@.len(), |i: int| vars@[i]@);
    let mut i: usize = 0;
    while i < expr.len()
        invariant
            i <= expr@.len(),
            tail_wf(expr@, vars@.len()),
            names == Seq::new(vars@.len(), |i: int| vars@[i]@),
            target@ == pre + subst_raw_spec(expr@.take(i as int), names),
        decreases expr@.len() - i,
    {
        proof {
            assert(expr@.take(i + 1).drop_last() =~= expr@.take(i as int));
        }
        match &expr[i] {
            ExprFragment::Var(ix) => {
                let v = &vars[*ix];
                append_range(target, v.as_slice(), 0, v.len());
                target.push(32u8);
                proof {
                    assert(v@.subrange(0, v@.len() as int) =~= v@);
                }
            },
            ExprFragment::Constant(c) => {
                append_range(target, c.as_slice(), 0, c.len());
                proof {
                    assert(c@.subrange(0, c@.len() as int) =~= c@);
                }
            },
        }
        proof {
            assert(target@ =~= pre + subst_raw_spec(expr@.take(i + 1), names));
        }
        i = i + 1;
    }
    proof {
        assert(expr@.take(i as int) =~= expr@);
    }
}

/// The union of the variable sets of the variables that `expr` mentions.
fn do_substitute_vars(expr: &Vec<ExprFragment>, vars: &Vec<Bitset>) -> (r: Bitset)
    requires
        tail_wf(expr@, vars@.len()),
        forall|i: int| 0 <= i < vars@.len() ==> (#[trigger] vars@[i]).wf(),
    ensures
        r.wf(),
        r@ == subst_vars_spec(expr@, Seq::new(vars@.len(), |i: int| vars@[i]@)),
{
    let ghost sets = Seq::new(vars@.len(), |i: int| vars@[i]@);
    let mut out = Bitset::new();
    let mut i: usize = 0;
    while i < expr.len()
        invariant
            i <= expr@.len(),
            tail_wf(expr@, vars@.len()),
            forall|j: int| 0 <= j < vars@.len() ==> (#[trigger] vars@[j]).wf(),
            sets == Seq::new(vars@.len(), |i: int| vars@[i]@),
            out.wf(),
            out@ == subst_vars_spec(expr@.take(i as int), sets),
        decreases expr@.len() - i,
    {
        proof {
            assert(expr@.take(i + 1).drop_last() =~= expr@.take(i as int));
        }
        match &expr[i] {
            ExprFragment::Var(ix) => {
                out.union_with(&vars[*ix]);
            },
            ExprFragment::Constant(_) => {
                proof {
                    assert(out@.union(Set::empty()) =~= out@);
                }
            },
        }
        i = i + 1;
    }
    proof {
        assert(expr@.take(i as int) =~= expr@);
    }
    out
}

/// One operation decoded from the digits of a compressed proof.
#[derive(Clone, Copy, Debug, PartialEq, Eq, Structural)]
pub enum ProofOp {
    /// Run the prepared step of this index.
    Step(usize),
    /// Save the top of the stack as a new prepared step.
    Save,
}

/// The decoder's state after a prefix of the digits.
pub struct DecodeState {
    pub ops: Seq<ProofOp>,
    pub k: nat,
    pub can_save: bool,
    pub stop: Option<Diagnostic>,
}

/// Accumulated step numbers must stay below this bound.
pub const VARINT_LIMIT: usize = 214748363;

/// The decoder before any digit.
pub open spec fn decode_init() -> DecodeState {
    DecodeState { ops: Seq::empty(), k: 0, can_save: false, stop: None }
}

/// The decoder after one more character.
pub open spec fn decode_step(s: DecodeState, ch: u8) -> DecodeState {
    if s.stop is Some {
        s
    } else if 65 <= ch <= 84 {
        let k = s.k * 20 + (ch - 65);
        DecodeState { ops: s.ops.push(ProofOp::Step(k as usize)), k: 0, can_save: true, stop: None }
    } else if 85 <= ch <= 89 {
        let k = s.k * 5 + 1 + (ch - 85);
        if k >= VARINT_LIMIT {
            DecodeState { stop: Some(Diagnostic::ProofMalformedVarint), ..s }
        } else {
            DecodeState { k: k as nat, can_save: false, ..s }
        }
    } else if ch == 90 {
        if !s.can_save {
            DecodeState { stop: Some(Diagnostic::ProofInvalidSave), ..s }
        } else {
            DecodeState { ops: s.ops.push(ProofOp::Save), can_save: false, ..s }
        }
    } else if ch == 63 {
        if s.k > 0 {
            DecodeState { stop: Some(Diagnostic::ProofMalformedVarint), ..s }
        } else {
            DecodeState { stop: Some(Diagnostic::ProofIncomplete), ..s }
        }
    } else {
        s
    }
}

/// The decoder after the characters of `digits`.
pub open spec fn decode_prefix(digits: Seq<u8>) -> DecodeState
    decreases digits.len(),
{
    if digits.len() == 0 {
        decode_init()
    } else {
        decode_step(decode_prefix(digits.drop_last()), digits.last())
    }
}

/// The operations of a digit stream, and the error that ends it, if any: a
/// stream that stops inside a number is malformed.
pub open spec fn decode_spec(digits: Seq<u8>) -> (Seq<ProofOp>, Option<Diagnostic>) {
    let s = decode_prefix(digits);
    if s.stop is None && s.k > 0 {
        (s.ops, Some(Diagnostic::ProofMalformedVarint))
    } else {
        (s.ops, s.stop)
    }
}

/// Each `Save` directly follows a `Step`.
pub open spec fn saves_follow_steps(ops: Seq<ProofOp>) -> bool {
    forall|i: int|
        0 <= i < ops.len() && #[trigger] ops[i] == ProofOp::Save ==> i > 0 && ops[i - 1] is Step
}

/// Decodes the digit stream of a compressed proof (the characters after the
/// closing parenthesis of the label roster): `A`..`T` end a number and run
/// that step, `U`..`Y` continue a number, `Z` saves the last step's result,
/// `?` marks an unfinished proof; other characters are skipped.
pub fn decode_compressed(digits: &[u8]) -> (r: (Vec<ProofOp>, Option<Diagnostic>))
    ensures
        r.0@ == decode_spec(digits@).0,
        r.1 == decode_spec(digits@).1,
        saves_follow_steps(r.0@),
        r.1 is None || r.1 == Some(Diagnostic::ProofMalformedVarint) || r.1 == Some(Diagnostic::ProofInvalidSave)
            || r.1 == Some(Diagnostic::ProofIncomplete),
{
    let mut ops: Vec<ProofOp> = Vec::new();
    let mut k: usize = 0;
    let mut can_save = false;
    let mut i: usize = 0;
    while i < digits.len()
        invariant
            i <= digits@.len(),
            decode_prefix(digits@.take(i as int)).stop is None,
            decode_prefix(digits@.take(i as int)).ops == ops@,
            decode_prefix(digits@.take(i as int)).k == k as nat,
            decode_prefix(digits@.take(i as int)).can_save == can_save,
            k < VARINT_LIMIT,
            can_save ==> ops@.len() > 0 && ops@.last() is Step,
            saves_follow_steps(ops@),
        decreases digits@.len() - i,
    {
        let ch = digits[i];
        proof {
            assert(digits@.take(i + 1).drop_last() =~= digits@.take(i as int));
            assert(digits@.take(i + 1).last() == ch);
        }
        let ghost prev = ops@;
        if ch >= 65 && ch <= 84 {
            k = k * 20 + (ch - 65) as usize;
            ops.push(ProofOp::Step(k));
            k = 0;
            can_save = true;
        } else if ch >= 85 && ch <= 89 {
            k = k * 5 + 1 + (ch - 85) as usize;
            if k >= VARINT_LIMIT {
                proof {
                    lemma_decode_stopped(digits@, i as nat + 1);
                }
                return (ops, Some(Diagnostic::ProofMalformedVarint));
            }
            can_save = false;
        } else if ch == 90 {
            if !can_save {
                proof {
                    lemma_decode_stopped(digits@, i as nat + 1);
                }
                return (ops, Some(Diagnostic::ProofInvalidSave));
            }
            ops.push(ProofOp::Save);
            can_save = false;
        } else if ch == 63 {
            proof {
                lemma_decode_stopped(digits@, i as nat + 1);
            }
            if k > 0 {
                return (ops, Some(Diagnostic::ProofMalformedVarint));
            }
            return (ops, Some(Diagnostic::ProofIncomplete));
        }
        proof {
            assert forall|j: int| 0 <= j < ops@.len() && #[trigger] ops@[j] == ProofOp::Save implies j
                > 0 && ops@[j - 1] is Step by {
                if j < prev.len() {
                    assert(ops@[j] == prev[j]);
                    assert(ops@[j - 1] == prev[j - 1]);
                }
            }
        }
        i = i + 1;
    }
    proof {
        assert(digits@.take(i as int) =~= digits@);
    }
    if k > 0 {
        (ops, Some(Diagnostic::ProofMalformedVarint))
    } else {
        (ops, None)
    }
}

/// Once the decoder has stopped, later characters change nothing.
proof fn lemma_decode_stopped(digits: Seq<u8>, n: nat)
    requires
        n <= digits.len(),
        decode_prefix(digits.take(n as int)).stop is Some,
    ensures
        decode_prefix(digits) == decode_prefix(digits.take(n as int)),
    decreases digits.len() - n,
{
    if n < digits.len() {
        assert(digits.take(n + 1 as int).drop_last() =~= digits.take(n as int));
        assert(decode_prefix(digits.take(n + 1 as int)) == decode_prefix(digits.take(n as int)));
        lemma_decode_stopped(digits, n + 1);
    } else {
        assert(digits.take(n as int) =~= digits);
    }
}

/// One slot of the proof stack: the variables its expression mentions, its
/// typecode, and where its expression lies in the stack buffer.
pub struct StackSlot {
    pub vars: Bitset,
    pub code: Vec<u8>,
    pub expr: ByteRange,
}

/// A step that a proof may run: a hypothesis (or saved result) whose
/// expression lies in the preparation buffer, or an assertion by frame index.
pub enum PreparedStep {
    Hyp(Bitset, Vec<u8>, ByteRange),
    Assert(usize),
}

/// The state of the stack machine while one proof is checked.
pub struct VerifyState {
    pub cur_frame: usize,
    pub prepared: Vec<PreparedStep>,
    pub prep_buffer: Vec<u8>,
    pub stack: Vec<StackSlot>,
    pub stack_buffer: Vec<u8>,
    pub temp_buffer: Vec<u8>,
    pub var2bit: Vec<Vec<u8>>,
    pub dv_map: Vec<Bitset>,
}

/// Every member of a row of `dv_map` names a row, and the relation is symmetric.
pub open spec fn dv_symmetric(dv_map: Seq<Bitset>) -> bool {
    forall|i: int, j: nat|
        0 <= i < dv_map.len() && (#[trigger] dv_map[i]@.contains(j)) ==> j < dv_map.len()
            && dv_map[j as int]@.contains(i as nat)
}

impl VerifyState {
    /// The two states agree on everything but the stack and its buffers.
    pub open spec fn same_context(&self, other: &VerifyState) -> bool {
        &&& self.cur_frame == other.cur_frame
        &&& self.prepared == other.prepared
        &&& self.prep_buffer == other.prep_buffer
        &&& self.dv_map == other.dv_map
        &&& self.var2bit == other.var2bit
    }

    /// The bytes of stack slot `i`.
    pub open spec fn slot_bytes(&self, i: int) -> Seq<u8> {
        range_bytes(self.stack_buffer@, self.stack@[i].expr)
    }

    /// The frame under check exists, every range lies in its buffer, stack
    /// slots are laid out in order, and the DV relation is symmetric.
    pub open spec fn wf(&self, scopes: &ScopeResult) -> bool {
        &&& scopes.wf()
        &&& self.cur_frame < scopes.frames@.len()
        &&& self.dv_map@.len() == self.var2bit@.len()
        &&& distinct_names(self.var2bit@)
        &&& forall|i: int| 0 <= i < self.dv_map@.len() ==> (#[trigger] self.dv_map@[i]).wf()
        &&& dv_symmetric(self.dv_map@)
        &&& forall|i: int|
            0 <= i < self.stack@.len() ==> (#[trigger] self.stack@[i]).vars.wf() && range_in(
                self.stack@[i].expr,
                self.stack_buffer@.len(),
            )
        &&& forall|i: int, j: int|
            0 <= i < j < self.stack@.len() ==> (#[trigger] self.stack@[i]).expr.end
                <= (#[trigger] self.stack@[j]).expr.start
        &&& self.stack_buffer@.len() == if self.stack@.len() == 0 {
            0
        } else {
            self.stack@.last().expr.end as int
        }
        &&& forall|i: int|
            0 <= i < self.prepared@.len() ==> match #[trigger] self.prepared@[i] {
                PreparedStep::Hyp(v, _, r) => v.wf() && range_in(r, self.prep_buffer@.len()),
                PreparedStep::Assert(fi) => fi < scopes.frames@.len(),
            }
    }
}

/// Whether bytes `r` of `buf` equal `other`.
fn range_equals(buf: &[u8], r: ByteRange, other: &[u8]) -> (res: bool)
    requires
        range_in(r, buf@.len()),
    ensures
        res == (range_bytes(buf@, r) == other@),
{
    if r.end - r.start != other.len() {
        return false;
    }
    let mut i: usize = 0;
    while i < other.len()
        invariant
            range_in(r, buf@.len()),
            r.end - r.start == other@.len(),
            i <= other@.len(),
            forall|j: int| 0 <= j < i ==> buf@[r.start + j] == other@[j],
        decreases other@.len() - i,
    {
        if buf[r.start + i] != other[i] {
            return false;
        }
        i = i + 1;
    }
    proof {
        assert(range_bytes(buf@, r) =~= other@);
    }
    true
}

/// Looks up a cited label and adds it to the prepared steps: an assertion by
/// its frame, a hypothesis by its expression and variables.
#[verifier::spinoff_prover]
fn prepare_step(state: &mut VerifyState, scopes: &ScopeResult, label: &[u8]) -> (r: Option<
    Diagnostic,
>)
    requires
        old(state).wf(scopes),
    ensures
        final(state).wf(scopes),
        final(state).machine() == prepare_m(old(state).machine(), scopes, label@).0,
        faults(r) == prepare_m(old(state).machine(), scopes, label@).1,
        r is Some ==> *final(state) == *old(state),
        old(state).prep_buffer@.len() <= final(state).prep_buffer@.len(),
        final(state).prep_buffer@.subrange(0, old(state).prep_buffer@.len() as int) == old(state).prep_buffer@,
        final(state).prepared@.len() > old(state).prepared@.len() ==> (final(state).prepared@.last() matches PreparedStep::Hyp(_, _, rg) ==> rg.start == old(state).prep_buffer@.len() && rg.end == final(state).prep_buffer@.len()),
        final(state).cur_frame == old(state).cur_frame,
        final(state).stack == old(state).stack,
        final(state).stack_buffer == old(state).stack_buffer,
        match scopes.index_of(label@) {
            None => r matches Some(Diagnostic::StepMissing(l)) && l@ == label@,
            Some(fi) => {
                let f = scopes.frames@[fi];
                let pos = scopes.frames@[old(state).cur_frame as int].valid_start;
                if !precedes(f.valid_start, pos) {
                    r matches Some(Diagnostic::StepUsedBeforeDefinition(l)) && l@ == label@
                } else if f.valid_end is Some && (pos.segment_id != f.valid_start.segment_id
                    || pos.index >= f.valid_end->0) {
                    r matches Some(Diagnostic::StepUsedAfterScope(l)) && l@ == label@
                } else {
                    &&& r is None
                    &&& final(state).prepared@.len() == old(state).prepared@.len() + 1
                    &&& final(state).prepared@.drop_last() == old(state).prepared@
                    &&& (f.stype == StatementType::Axiom || f.stype == StatementType::Provable)
                        ==> final(state).prepared@.last() == PreparedStep::Assert(fi as usize)
                    &&& !(f.stype == StatementType::Axiom || f.stype == StatementType::Provable)
                        ==> (final(state).prepared@.last() matches PreparedStep::Hyp(v, c, rg)
                        && v@ == var_bits(final(state).var2bit@, f.mandatory_vars@)
                        && c@ == f.target.typecode@ && range_bytes(
                        final(state).prep_buffer@,
                        rg,
                    ) == f.stub_expr@)
                }
            },
        },
{
    let ghost m0 = state.machine();
    let fi = match scopes.get(label) {
        Some(fi) => fi,
        None => {
            return Some(Diagnostic::StepMissing(copy_bytes(label)));
        },
    };
    let frame = &scopes.frames[fi];
    let pos = scopes.frames[state.cur_frame].valid_start;
    let vs = frame.valid_start;
    if !(vs.segment_id < pos.segment_id || (vs.segment_id == pos.segment_id && vs.index
        < pos.index)) {
        return Some(Diagnostic::StepUsedBeforeDefinition(copy_bytes(label)));
    }
    match frame.valid_end {
        Some(end) => {
            if pos.segment_id != vs.segment_id || pos.index >= end {
                return Some(Diagnostic::StepUsedAfterScope(copy_bytes(label)));
            }
        },
        None => {},
    }
    if frame.stype == StatementType::Axiom || frame.stype == StatementType::Provable {
        state.prepared.push(PreparedStep::Assert(fi));
    } else {
        let mut vars = Bitset::new();
        let mut i: usize = 0;
        proof {
            assert(vars@ =~= var_bits(state.var2bit@, frame.mandatory_vars@.take(0)));
        }
        while i < frame.mandatory_vars.len()
            invariant
                state.wf(scopes),
                state.cur_frame == old(state).cur_frame,
                state.stack == old(state).stack,
                state.stack_buffer == old(state).stack_buffer,
                state.prepared == old(state).prepared,
                state.prep_buffer == old(state).prep_buffer,
                vars.wf(),
                i <= frame.mandatory_vars@.len(),
                vars@ == var_bits(state.var2bit@, frame.mandatory_vars@.take(i as int)),
                m0 == old(state).machine(),
                frame == &scopes.frames@[fi as int],
                state.machine().names == intern_all(m0.names, views(frame.mandatory_vars@).take(i as int)),
                state.machine().dv == grow_dv(m0.dv, state.var2bit@.len()),
                m0.dv.len() <= state.dv_map@.len(),
                forall|m: int| 0 <= m < i ==> exists|j: int| 0 <= j < state.var2bit@.len() && state.var2bit@[j]@ == #[trigger] frame.mandatory_vars@[m]@,
            decreases frame.mandatory_vars@.len() - i,
        {
            let ghost n0 = state.var2bit@;
            let ghost s0 = vars@;
            let ghost mn0 = state.machine().names;
            let ghost d0 = state.dv_map@;
            let ghost md0 = state.machine().dv;
            let bit = map_var(&mut state.var2bit, &mut state.dv_map, frame.mandatory_vars[i].as_slice());
            vars.set_bit(bit);
            proof {
                let mv = frame.mandatory_vars@;
                let names = state.var2bit@;
                let tok = mv[i as int]@;
                assert forall|j: nat| #[trigger] vars@.contains(j) == var_bits(names, mv.take(i + 1)).contains(j) by {
                    if vars@.contains(j) {
                        if j == bit {
                            assert(mv.take(i + 1)[i as int] == mv[i as int]);
                        } else {
                            assert(s0.contains(j));
                            let m = choose|m: int| 0 <= m < i && n0[j as int]@ == (#[trigger] mv.take(i as int)[m])@;
                            assert(names[j as int] == n0[j as int]);
                            assert(mv.take(i + 1)[m] == mv.take(i as int)[m]);
                        }
                    }
                    if var_bits(names, mv.take(i + 1)).contains(j) {
                        let m = choose|m: int| 0 <= m < i + 1 && names[j as int]@ == (#[trigger] mv.take(i + 1)[m])@;
                        if m == i {
                            assert(names[j as int]@ == names[bit as int]@);
                            assert(j == bit);
                        } else {
                            assert(mv.take(i + 1)[m] == mv[m]);
                            if (j as int) < n0.len() {
                                assert(names[j as int] == n0[j as int]);
                                assert(mv.take(i as int)[m] == mv[m]);
                                assert(s0.contains(j));
                            } else {
                                let jj = choose|jj: int| 0 <= jj < n0.len() && n0[jj]@ == #[trigger] mv[m]@;
                                assert(names[jj] == n0[jj]);
                                assert(names.len() > n0.len());
                                assert(n0[jj]@ != tok);
                                assert(names[j as int]@ == tok);
                            }
                        }
                    }
                }
                assert(vars@ =~= var_bits(names, mv.take(i + 1)));
                let toks = views(mv);
                assert(toks.take(i + 1).drop_last() =~= toks.take(i as int));
                assert(toks.take(i + 1).last() == tok);
                if mn0.contains(tok) {
                    let k = choose|k: int| 0 <= k < mn0.len() && mn0[k] == tok;
                    assert(n0[k]@ == tok);
                    assert(state.var2bit@ == n0);
                    assert(state.machine().names =~= mn0);
                } else {
                    if (bit as int) < n0.len() {
                        assert(names[bit as int] == n0[bit as int]);
                        assert(mn0[bit as int] == tok);
                    }
                    assert(state.machine().names =~= mn0.push(tok));
                }
                assert(state.machine().names == intern_all(m0.names, toks.take(i + 1)));
                assert forall|k: int| 0 <= k < state.dv_map@.len() implies #[trigger] state.machine().dv[k] == grow_dv(m0.dv, state.var2bit@.len())[k] by {
                    assert(m0.dv.len() <= d0.len());
                    if k < d0.len() {
                        assert(state.dv_map@[k] == d0[k]);
                        assert(md0[k] == d0[k]@);
                        assert(md0[k] == grow_dv(m0.dv, n0.len())[k]);
                    } else {
                        assert(state.dv_map@[k]@ == Set::<nat>::empty());
                    }
                }
                assert(state.machine().dv =~= grow_dv(m0.dv, state.var2bit@.len()));
                assert forall|m: int| 0 <= m < i + 1 implies exists|j: int| 0 <= j < names.len() && names[j]@ == #[trigger] mv[m]@ by {
                    if m < i {
                        let jj = choose|jj: int| 0 <= jj < n0.len() && n0[jj]@ == #[trigger] mv[m]@;
                        assert(names[jj] == n0[jj]);
                    } else {
                        assert(names[bit as int]@ == mv[m]@);
                    }
                }
            }
            i = i + 1;
        }
        proof {
            assert(frame.mandatory_vars@.take(i as int) =~= frame.mandatory_vars@);
            assert(views(frame.mandatory_vars@).take(i as int) =~= views(frame.mandatory_vars@));
            let toks = views(frame.mandatory_vars@);
            let names = state.machine().names;
            assert forall|j: nat| #[trigger] vars@.contains(j) == bits_of(names, toks).contains(j) by {
                if vars@.contains(j) {
                    let m = choose|m: int| 0 <= m < frame.mandatory_vars@.len() && state.var2bit@[j as int]@ == frame.mandatory_vars@[m]@;
                    assert(toks[m] == names[j as int]);
                }
                if bits_of(names, toks).contains(j) {
                    let m = choose|m: int| 0 <= m < toks.len() && toks[m] == names[j as int];
                    assert(state.var2bit@[j as int]@ == frame.mandatory_vars@[m]@);
                }
            }
            assert(vars@ =~= bits_of(names, toks));
        }
        let ghost pb0 = state.prep_buffer@;
        let tos = state.prep_buffer.len();
        append_range(&mut state.prep_buffer, frame.stub_expr.as_slice(), 0, frame.stub_expr.len());
        let ntos = state.prep_buffer.len();
        proof {
            assert(frame.stub_expr@.subrange(0, frame.stub_expr@.len() as int) =~= frame.stub_expr@);
            assert(state.prep_buffer@.subrange(tos as int, ntos as int) =~= frame.stub_expr@);
        }
        state.prepared.push(
            PreparedStep::Hyp(vars, copy_bytes(frame.target.typecode.as_slice()), ByteRange { start: tos, end: ntos }),
        );
    }
    proof {
        assert(state.prepared@.drop_last() =~= old(state).prepared@);
        assert forall|k: int| 0 <= k < old(state).prepared@.len() implies #[trigger] state.machine().prepared[k] == m0.prepared[k] by {
            assert(state.prepared@[k] == old(state).prepared@[k]);
            match old(state).prepared@[k] {
                PreparedStep::Hyp(v, c, rg) => {
                    assert(range_in(rg, old(state).prep_buffer@.len()));
                    assert(range_bytes(state.prep_buffer@, rg) =~= range_bytes(old(state).prep_buffer@, rg));
                },
                PreparedStep::Assert(_) => {},
            }
        }
        assert(state.machine().prepared =~= prepare_m(m0, scopes, label@).0.prepared);
        assert(state.machine().stack =~= m0.stack);
        if !(frame.stype == StatementType::Axiom || frame.stype == StatementType::Provable) {
        } else {
            assert(state.machine().names =~= m0.names);
            assert(state.machine().dv =~= m0.dv);
        }
    }
    None
}

/// Row `v` of `dv_map` exists and holds every member of `vs`.
pub open spec fn row_has_all(dv_map: Seq<Bitset>, v: nat, vs: Seq<usize>) -> bool {
    &&& vs.len() > 0 ==> v < dv_map.len()
    &&& forall|y: int| 0 <= y < vs.len() ==> dv_map[v as int]@.contains((#[trigger] vs[y]) as nat)
}

/// Whether row `v` of `dv_map` exists and holds every member of `vs`.
fn dv_row_has_all(dv_map: &Vec<Bitset>, v: usize, vs: &Vec<usize>) -> (r: bool)
    ensures
        r == row_has_all(dv_map@, v as nat, vs@),
{
    if vs.len() == 0 {
        return true;
    }
    if v >= dv_map.len() {
        proof {
            assert(!(v < dv_map@.len() && dv_map@[v as int]@.contains(vs@[0] as nat)));
        }
        return false;
    }
    let mut b: usize = 0;
    while b < vs.len()
        invariant
            v < dv_map@.len(),
            b <= vs@.len(),
            forall|y: int| 0 <= y < b ==> dv_map@[v as int]@.contains((#[trigger] vs@[y]) as nat),
        decreases vs@.len() - b,
    {
        if !dv_map[v].has_bit(vs[b]) {
            proof {
                assert(!(v < dv_map@.len() && dv_map@[v as int]@.contains(vs@[b as int] as nat)));
            }
            return false;
        }
        b = b + 1;
    }
    true
}

/// Whether every pair of variables substituted for a mandatory DV pair is
/// marked distinct in `dv_map`.
fn dv_respected(dv_map: &Vec<Bitset>, subst_vars: &Vec<Bitset>, dv: &Vec<(usize, usize)>) -> (r:
    bool)
    requires
        forall|j: int| 0 <= j < subst_vars@.len() ==> (#[trigger] subst_vars@[j]).wf(),
        forall|i: int|
            0 <= i < dv@.len() ==> (#[trigger] dv@[i]).0 < subst_vars@.len() && dv@[i].1
                < subst_vars@.len(),
    ensures
        r == forall|d: int, v1: nat, v2: nat|
            0 <= d < dv@.len() && (#[trigger] subst_vars@[dv@[d].0 as int]@.contains(v1))
                && (#[trigger] subst_vars@[dv@[d].1 as int]@.contains(v2)) ==> v1
                < dv_map@.len() && dv_map@[v1 as int]@.contains(v2),
{
    let mut d: usize = 0;
    while d < dv.len()
        invariant
            d <= dv@.len(),
            forall|j: int| 0 <= j < subst_vars@.len() ==> (#[trigger] subst_vars@[j]).wf(),
            forall|i: int|
                0 <= i < dv@.len() ==> (#[trigger] dv@[i]).0 < subst_vars@.len() && dv@[i].1
                    < subst_vars@.len(),
            forall|e: int, v1: nat, v2: nat|
                0 <= e < d && (#[trigger] subst_vars@[dv@[e].0 as int]@.contains(v1))
                    && (#[trigger] subst_vars@[dv@[e].1 as int]@.contains(v2)) ==> v1
                    < dv_map@.len() && dv_map@[v1 as int]@.contains(v2),
        decreases dv@.len() - d,
    {
        let (ix1, ix2) = dv[d];
        let vars1 = subst_vars[ix1].to_vec();
        let vars2 = subst_vars[ix2].to_vec();
        let mut a: usize = 0;
        while a < vars1.len()
            invariant
                a <= vars1@.len(),
                forall|x: int| 0 <= x < vars1@.len() ==> subst_vars@[ix1 as int]@.contains((#[trigger] vars1@[x]) as nat),
                forall|x: int| 0 <= x < vars2@.len() ==> subst_vars@[ix2 as int]@.contains((#[trigger] vars2@[x]) as nat),
                ix1 == dv@[d as int].0,
                ix2 == dv@[d as int].1,
                d < dv@.len(),
                forall|x: int|
                    0 <= x < a ==> row_has_all(dv_map@, (#[trigger] vars1@[x]) as nat, vars2@),
            decreases vars1@.len() - a,
        {
            if !dv_row_has_all(dv_map, vars1[a], &vars2) {
                proof {
                    assert(subst_vars@[ix1 as int]@.contains(vars1@[a as int] as nat));
                    let y = choose|y: int| 0 <= y < vars2@.len() && !dv_map@[vars1@[a as int] as int]@.contains(
                        (#[trigger] vars2@[y]) as nat);
                    if 0 <= y < vars2@.len() {
                        assert(subst_vars@[ix2 as int]@.contains(vars2@[y] as nat));
                    } else {
                        assert(subst_vars@[ix2 as int]@.contains(vars2@[0] as nat));
                    }
                }
                return false;
            }
            a = a + 1;
        }
        proof {
            assert forall|e: int, v1: nat, v2: nat|
                0 <= e < d + 1 && (#[trigger] subst_vars@[dv@[e].0 as int]@.contains(v1))
                    && (#[trigger] subst_vars@[dv@[e].1 as int]@.contains(v2)) implies v1
                    < dv_map@.len() && dv_map@[v1 as int]@.contains(v2) by {
                if e == d {
                    let x = choose|x: int| 0 <= x < vars1@.len() && vars1@[x] == v1;
                    let y = choose|y: int| 0 <= y < vars2@.len() && vars2@[y] == v2;
                    assert(row_has_all(dv_map@, vars1@[x] as nat, vars2@));
                }
            }
        }
        d = d + 1;
    }
    true
}

/// Checks the essential hypotheses of `frame` against the stack from
/// `sbase` on, with the variables' values at `subst_exprs`.
fn check_essentials(
    state: &VerifyState,
    scopes: &ScopeResult,
    frame: &Frame,
    sbase: usize,
    subst_exprs: &Vec<ByteRange>,
) -> (r: Option<Diagnostic>)
    requires
        state.wf(scopes),
        frame.wf(),
        sbase + frame.hypotheses@.len() == state.stack@.len(),
        subst_exprs@.len() == frame.mandatory_vars@.len(),
        forall|j: int| 0 <= j < subst_exprs@.len() ==> range_in(#[trigger] subst_exprs@[j], state.stack_buffer@.len()),
    ensures
        r is None || r == Some(Diagnostic::StepEssenWrongType) || r == Some(Diagnostic::StepEssenWrong),
        r == essen_check(
            state.machine().stack,
            frame.hypotheses@,
            sbase as int,
            frame.hypotheses@.len() as int,
            ranges_bytes(subst_exprs@, state.stack_buffer@),
        ),
{
    let ghost ms = state.machine().stack;
    let ghost hyps = frame.hypotheses@;
    let ghost vals = ranges_bytes(subst_exprs@, state.stack_buffer@);
    let nhyps = frame.hypotheses.len();
    let mut temp: Vec<u8> = Vec::new();
    let mut ix: usize = 0;
    while ix < nhyps
        invariant
            state.wf(scopes),
            frame.wf(),
            hyps == frame.hypotheses@,
            nhyps == hyps.len(),
            ms == state.machine().stack,
            vals == ranges_bytes(subst_exprs@, state.stack_buffer@),
            sbase + nhyps == state.stack@.len(),
            subst_exprs@.len() == frame.mandatory_vars@.len(),
            forall|j: int| 0 <= j < subst_exprs@.len() ==> range_in(#[trigger] subst_exprs@[j], state.stack_buffer@.len()),
            ix <= nhyps,
            essen_check(ms, hyps, sbase as int, ix as int, vals) is None,
        decreases nhyps - ix,
    {
        let hyp = &frame.hypotheses[ix];
        if !hyp.is_float {
            let depth = state.stack.len();
            let p: usize = sbase + ix;
            let slot = &state.stack[p];
            proof {
                assert(ms[p as int] == (Slot { vars: slot.vars@, code: slot.code@, bytes: state.slot_bytes(p as int) }));
            }
            if !bytes_eq(slot.code.as_slice(), hyp.expr.typecode.as_slice()) {
                proof {
                    assert(essen_check(ms, hyps, sbase as int, ix + 1, vals) == Some(Diagnostic::StepEssenWrongType));
                    lemma_essen_check_stays(ms, hyps, sbase as int, ix + 1, nhyps as int, vals);
                }
                return Some(Diagnostic::StepEssenWrongType);
            }
            temp.clear();
            do_substitute(&mut temp, &hyp.expr.tail, subst_exprs, state.stack_buffer.as_slice());
            if !range_equals(state.stack_buffer.as_slice(), slot.expr, temp.as_slice()) {
                proof {
                    assert(temp@ =~= subst_spec(hyps[ix as int].expr.tail@, vals));
                    assert(essen_check(ms, hyps, sbase as int, ix + 1, vals) == Some(Diagnostic::StepEssenWrong));
                    lemma_essen_check_stays(ms, hyps, sbase as int, ix + 1, nhyps as int, vals);
                }
                return Some(Diagnostic::StepEssenWrong);
            }
            proof {
                assert(temp@ =~= subst_spec(hyps[ix as int].expr.tail@, vals));
            }
        }
        ix = ix + 1;
    }
    None
}

/// States that agree on every field but the scratch buffer stand for the
/// same machine.
proof fn lemma_same_machine(a: &VerifyState, b: &VerifyState)
    requires
        a.same_context(b),
        a.stack == b.stack,
        a.stack_buffer == b.stack_buffer,
    ensures
        a.machine() == b.machine(),
{
    assert(a.machine().prepared =~= b.machine().prepared);
    assert(a.machine().stack =~= b.machine().stack);
    assert(a.machine().names =~= b.machine().names);
    assert(a.machine().dv =~= b.machine().dv);
}

/// A failed check stays failed as more hypotheses are checked.
proof fn lemma_essen_check_stays(stack: Seq<Slot>, hyps: Seq<Hyp>, sbase: int, m: int, n: int, vals: Seq<Seq<u8>>)
    requires
        m <= n,
        essen_check(stack, hyps, sbase, m, vals) is Some,
    ensures
        essen_check(stack, hyps, sbase, n, vals) == essen_check(stack, hyps, sbase, m, vals),
    decreases n - m,
{
    if m < n {
        lemma_essen_check_stays(stack, hyps, sbase, m, n - 1, vals);
    }
}

/// Runs prepared step `index`: a hypothesis is pushed; an assertion pops
/// its hypotheses, checks them against the substitution they define, pushes
/// the substituted conclusion and checks the DV conditions.
#[verifier::spinoff_prover]
fn execute_step(state: &mut VerifyState, scopes: &ScopeResult, index: usize) -> (r: Option<
    Diagnostic,
>)
    requires
        old(state).wf(scopes),
    ensures
        r is None ==> final(state).wf(scopes),
        final(state).cur_frame == old(state).cur_frame,
        final(state).prepared == old(state).prepared,
        final(state).prep_buffer == old(state).prep_buffer,
        final(state).dv_map == old(state).dv_map,
        final(state).var2bit == old(state).var2bit,
        final(state).machine() == execute_m(old(state).machine(), scopes, index as int).0,
        faults(r) == execute_m(old(state).machine(), scopes, index as int).1,
        r is None ==> final(state).stack@.len() > 0,
        r == Some(Diagnostic::StepOutOfRange) || r == Some(Diagnostic::ProofUnderflow) ==> *final(state) == *old(state),
        r is None ==> ({
            let top = final(state).stack@.last();
            let n = final(state).stack@.len() - 1;
            let keep = if n == 0 { 0 } else { final(state).stack@[n - 1].expr.end as int };
            &&& top.expr.start == keep
            &&& top.expr.end == final(state).stack_buffer@.len()
            &&& final(state).stack_buffer@.subrange(0, keep) == old(state).stack_buffer@.subrange(0, keep)
        }),
{
    let ghost m0 = state.machine();
    if index >= state.prepared.len() {
        return Some(Diagnostic::StepOutOfRange);
    }
    let fi = match &state.prepared[index] {
        PreparedStep::Hyp(vars, code, expr) => {
            let tos = state.stack_buffer.len();
            append_range(&mut state.stack_buffer, state.prep_buffer.as_slice(), expr.start, expr.end);
            let ntos = state.stack_buffer.len();
            let slot = StackSlot {
                vars: vars.duplicate(),
                code: copy_bytes(code.as_slice()),
                expr: ByteRange { start: tos, end: ntos },
            };
            state.stack.push(slot);
            proof {
                assert forall|i: int| 0 <= i < old(state).stack@.len() implies state.slot_bytes(i)
                    == old(state).slot_bytes(i) by {
                    assert(state.stack@[i] == old(state).stack@[i]);
                    assert(state.slot_bytes(i) =~= old(state).slot_bytes(i));
                }
                assert(state.slot_bytes(state.stack@.len() - 1) =~= range_bytes(
                    old(state).prep_buffer@,
                    *expr,
                ));
                let top = Slot { vars: vars@, code: code@, bytes: range_bytes(old(state).prep_buffer@, *expr) };
                assert(m0.prepared[index as int] == Step::Hyp(top));
                assert(state.machine().stack =~= m0.stack.push(top));
                assert(state.machine().prepared =~= m0.prepared);
                assert(state.machine().names =~= m0.names);
                assert(state.machine().dv =~= m0.dv);
            }
            return None;
        },
        PreparedStep::Assert(fi) => *fi,
    };
    let frame = &scopes.frames[fi];
    proof {
        assert(scopes.frames@[fi as int].wf());
        assert(m0.prepared[index as int] == Step::Assert(fi as int));
    }
    let nhyps = frame.hypotheses.len();
    if state.stack.len() < nhyps {
        return Some(Diagnostic::ProofUnderflow);
    }
    let sbase = state.stack.len() - nhyps;
    let nvars = frame.mandatory_vars.len();
    let ghost hyps = frame.hypotheses@;
    let ghost sb: int = m0.stack.len() - hyps.len();
    proof {
        assert(sb == sbase as int);
    }
    let mut subst_exprs: Vec<ByteRange> = Vec::new();
    let mut subst_vars: Vec<Bitset> = Vec::new();
    let mut i: usize = 0;
    while i < nvars
        invariant
            i <= nvars,
            subst_exprs@.len() == i,
            subst_vars@.len() == i,
            forall|j: int| 0 <= j < i ==> range_in(#[trigger] subst_exprs@[j], state.stack_buffer@.len()),
            forall|j: int| 0 <= j < i ==> (#[trigger] subst_vars@[j]).wf(),
            forall|j: int| 0 <= j < i ==> #[trigger] subst_exprs@[j] == (ByteRange { start: 0, end: 0 }),
            forall|j: int| 0 <= j < i ==> (#[trigger] subst_vars@[j])@ == Set::<nat>::empty(),
        decreases nvars - i,
    {
        subst_exprs.push(ByteRange { start: 0, end: 0 });
        subst_vars.push(Bitset::new());
        i = i + 1;
    }
    proof {
        assert forall|j: int| 0 <= j < nvars implies #[trigger] ranges_bytes(subst_exprs@, state.stack_buffer@)[j] =~= Seq::<u8>::empty() by {
            assert(subst_exprs@[j] == (ByteRange { start: 0, end: 0 }));
        }
        assert(ranges_bytes(subst_exprs@, state.stack_buffer@) =~= float_vals(m0.stack, hyps, sb, 0, nvars as nat));
        assert(Seq::new(nvars as nat, |j: int| subst_vars@[j]@) =~= float_sets(m0.stack, hyps, sb, 0, nvars as nat));
    }
    // floating hypotheses define the substitution
    let mut ix: usize = 0;
    while ix < nhyps
        invariant
            *state == *old(state),
            m0 == old(state).machine(),
            state.wf(scopes),
            index < old(state).prepared@.len(),
            m0.prepared[index as int] == Step::Assert(fi as int),
            fi < scopes.frames@.len(),
            frame == &scopes.frames@[fi as int],
            frame.wf(),
            hyps == frame.hypotheses@,
            nhyps == hyps.len(),
            nvars == frame.mandatory_vars@.len(),
            sbase + nhyps == state.stack@.len(),
            sb == sbase as int,
            sb == m0.stack.len() - hyps.len(),
            ix <= nhyps,
            subst_exprs@.len() == nvars,
            subst_vars@.len() == nvars,
            forall|j: int| 0 <= j < nvars ==> range_in(#[trigger] subst_exprs@[j], state.stack_buffer@.len()),
            forall|j: int| 0 <= j < nvars ==> (#[trigger] subst_vars@[j]).wf(),
            ranges_bytes(subst_exprs@, state.stack_buffer@) == float_vals(m0.stack, hyps, sb, ix as int, nvars as nat),
            Seq::new(nvars as nat, |j: int| subst_vars@[j]@) == float_sets(m0.stack, hyps, sb, ix as int, nvars as nat),
            forall|j: int| 0 <= j < ix ==> #[trigger] float_type_ok(m0.stack, hyps, sb, j),
        decreases nhyps - ix,
    {
        let hyp = &frame.hypotheses[ix];
        if hyp.is_float {
            let depth = state.stack.len();
            let p: usize = sbase + ix;
            let slot = &state.stack[p];
            proof {
                assert(m0.stack[p as int] == (Slot { vars: slot.vars@, code: slot.code@, bytes: state.slot_bytes(p as int) }));
            }
            if !bytes_eq(slot.code.as_slice(), hyp.expr.typecode.as_slice()) {
                proof {
                    assert(!float_type_ok(m0.stack, hyps, sb, ix as int));
                }
                return Some(Diagnostic::StepFloatWrongType);
            }
            let ghost e0 = subst_exprs@;
            subst_vars.set(hyp.variable_index, slot.vars.duplicate());
            subst_exprs.set(hyp.variable_index, slot.expr);
            proof {
                assert(ranges_bytes(subst_exprs@, state.stack_buffer@) =~= float_vals(m0.stack, hyps, sb, ix + 1, nvars as nat));
                assert(Seq::new(nvars as nat, |j: int| subst_vars@[j]@) =~= float_sets(m0.stack, hyps, sb, ix + 1, nvars as nat));
            }
        }
        proof {
            assert(float_type_ok(m0.stack, hyps, sb, ix as int));
        }
        ix = ix + 1;
    }
    let ghost vals = float_vals(m0.stack, hyps, sb, nhyps as int, nvars as nat);
    let ghost sets = float_sets(m0.stack, hyps, sb, nhyps as int, nvars as nat);
    // essential hypotheses must match their substituted expressions
    match check_essentials(state, scopes, frame, sbase, &subst_exprs) {
        Some(d) => {
            proof {
                assert(essen_check(m0.stack, hyps, sb, hyps.len() as int, vals) == Some(d));
            }
            return Some(d);
        },
        None => {},
    }
    state.temp_buffer.clear();
    do_substitute(&mut state.temp_buffer, &frame.target.tail, &subst_exprs, state.stack_buffer.as_slice());
    let ghost old_stack = state.stack@;
    state.stack.truncate(sbase);
    let new_len = if sbase == 0 {
        0
    } else {
        state.stack[sbase - 1].expr.end
    };
    state.stack_buffer.truncate(new_len);
    let tos = state.stack_buffer.len();
    append_range(&mut state.stack_buffer, state.temp_buffer.as_slice(), 0, state.temp_buffer.len());
    let ntos = state.stack_buffer.len();
    proof {
        assert(state.temp_buffer@.subrange(0, state.temp_buffer@.len() as int) =~= state.temp_buffer@);
        assert(state.stack_buffer@.subrange(tos as int, ntos as int) =~= state.temp_buffer@);
        assert(Seq::new(subst_vars@.len(), |j: int| subst_vars@[j]@) =~= Seq::new(nvars as nat, |j: int| subst_vars@[j]@));
    }
    let vars = do_substitute_vars(&frame.target.tail, &subst_vars);
    state.stack.push(StackSlot {
        code: copy_bytes(frame.target.typecode.as_slice()),
        vars: vars,
        expr: ByteRange { start: tos, end: ntos },
    });
    proof {
        assert forall|i: int| 0 <= i < sbase implies state.slot_bytes(i) == old(state).slot_bytes(i)
            && state.stack@[i] == old(state).stack@[i] by {
            assert(state.stack@[i] == old_stack[i]);
            if i < sbase - 1 {
                assert(old_stack[i].expr.end <= old_stack[sbase - 1].expr.start);
            }
            assert(state.slot_bytes(i) =~= old(state).slot_bytes(i));
        }
        assert forall|i: int, j: int| 0 <= i < j < state.stack@.len() implies (#[trigger] state.stack@[i]).expr.end
                <= (#[trigger] state.stack@[j]).expr.start by {
            if j < sbase {
                assert(old_stack[i].expr.end <= old_stack[j].expr.start);
            } else if i < sbase - 1 {
                assert(old_stack[i].expr.end <= old_stack[sbase - 1].expr.start);
            }
        }
        let f = scopes.frames@[fi as int];
        let top = Slot {
            vars: subst_vars_spec(f.target.tail@, sets),
            code: f.target.typecode@,
            bytes: subst_spec(f.target.tail@, vals),
        };
        assert(state.slot_bytes(sbase as int) =~= top.bytes);
        assert(state.machine().stack =~= m0.stack.take(sb).push(top));
        assert(state.machine().prepared =~= m0.prepared);
        assert(state.machine().names =~= m0.names);
        assert(state.machine().dv =~= m0.dv);
    }
    let dv_ok = dv_respected(&state.dv_map, &subst_vars, &frame.mandatory_dv);
    proof {
        assert forall|i: int| 0 <= i < nvars implies sets[i] == subst_vars@[i]@ by {
            assert(Seq::new(nvars as nat, |j: int| subst_vars@[j]@)[i] == subst_vars@[i]@);
        }
        let dv = frame.mandatory_dv@;
        if dv_ok {
            assert forall|d: int, v1: nat, v2: nat|
                0 <= d < dv.len() && (#[trigger] sets[dv[d].0 as int].contains(v1)) && (
                #[trigger] sets[dv[d].1 as int].contains(v2)) implies v1 < m0.dv.len()
                    && m0.dv[v1 as int].contains(v2) by {
                assert(subst_vars@[dv[d].0 as int]@.contains(v1));
                assert(subst_vars@[dv[d].1 as int]@.contains(v2));
            }
            assert(dv_holds(m0.dv, sets, dv));
        } else {
            let (d, v1, v2) = choose|d: int, v1: nat, v2: nat|
                0 <= d < dv.len() && (#[trigger] subst_vars@[dv[d].0 as int]@.contains(v1))
                    && (#[trigger] subst_vars@[dv[d].1 as int]@.contains(v2)) && !(v1
                    < state.dv_map@.len() && state.dv_map@[v1 as int]@.contains(v2));
            assert(sets[dv[d].0 as int].contains(v1));
            assert(sets[dv[d].1 as int].contains(v2));
            if v1 < m0.dv.len() {
                assert(m0.dv[v1 as int] == state.dv_map@[v1 as int]@);
            }
            assert(!dv_holds(m0.dv, sets, dv));
        }
    }
    if !dv_ok {
        return Some(Diagnostic::ProofDvViolation);
    }
    None
}

/// Saves the top of the stack as a new prepared hypothesis step.
fn save_step(state: &mut VerifyState, scopes: &ScopeResult)
    requires
        old(state).wf(scopes),
        old(state).stack@.len() > 0,
    ensures
        final(state).wf(scopes),
        final(state).cur_frame == old(state).cur_frame,
        final(state).stack == old(state).stack,
        final(state).stack_buffer == old(state).stack_buffer,
        final(state).prepared@.len() == old(state).prepared@.len() + 1,
        final(state).prepared@.drop_last() == old(state).prepared@,
        final(state).prepared@.last() matches PreparedStep::Hyp(v, c, rg) && v@ == old(
            state,
        ).stack@.last().vars@ && c@ == old(state).stack@.last().code@ && range_bytes(
            final(state).prep_buffer@,
            rg,
        ) == old(state).slot_bytes(old(state).stack@.len() - 1),
        final(state).machine() == save_m(old(state).machine()),
        final(state).prep_buffer@ == old(state).prep_buffer@ + old(state).slot_bytes(old(state).stack@.len() - 1),
{
    let ghost m0 = state.machine();
    let n = state.stack.len();
    let top = &state.stack[n - 1];
    let tos = state.prep_buffer.len();
    append_range(&mut state.prep_buffer, state.stack_buffer.as_slice(), top.expr.start, top.expr.end);
    let ntos = state.prep_buffer.len();
    proof {
        assert(state.prep_buffer@.subrange(tos as int, ntos as int) =~= old(state).slot_bytes(n - 1));
    }
    let step = PreparedStep::Hyp(top.vars.duplicate(), copy_bytes(top.code.as_slice()), ByteRange { start: tos, end: ntos });
    state.prepared.push(step);
    proof {
        assert(state.prepared@.drop_last() =~= old(state).prepared@);
        assert forall|k: int| 0 <= k < old(state).prepared@.len() implies #[trigger] state.machine().prepared[k] == m0.prepared[k] by {
            assert(state.prepared@[k] == old(state).prepared@[k]);
            match old(state).prepared@[k] {
                PreparedStep::Hyp(v, c, rg) => {
                    assert(range_in(rg, old(state).prep_buffer@.len()));
                    assert(range_bytes(state.prep_buffer@, rg) =~= range_bytes(old(state).prep_buffer@, rg));
                },
                PreparedStep::Assert(_) => {},
            }
        }
        assert(m0.stack.last() == m0.stack[n - 1]);
        assert(state.machine().prepared =~= save_m(m0).prepared);
        assert(state.machine().stack =~= m0.stack);
        assert(state.machine().names =~= m0.names);
        assert(state.machine().dv =~= m0.dv);
    }
}

/// Checks that the proof left exactly the statement's own assertion on the
/// stack: its typecode, and its expression with each variable written as
/// its name followed by a space.
fn finalize_step(state: &VerifyState, scopes: &ScopeResult) -> (r: Option<Diagnostic>)
    requires
        state.wf(scopes),
    ensures
        faults(r) == finalize_m(state.machine(), scopes),
        ({
            let f = scopes.frames@[state.cur_frame as int];
            if state.stack@.len() == 0 {
                r == Some(Diagnostic::ProofNoSteps)
            } else if state.stack@.len() > 1 {
                r == Some(Diagnostic::ProofExcessEnd)
            } else if state.stack@[0].code@ != f.target.typecode@ {
                r == Some(Diagnostic::ProofWrongTypeEnd)
            } else if state.slot_bytes(0) != subst_raw_spec(
                f.target.tail@,
                Seq::new(f.mandatory_vars@.len(), |i: int| f.mandatory_vars@[i]@),
            ) {
                r == Some(Diagnostic::ProofWrongExprEnd)
            } else {
                r is None
            }
        }),
{
    if state.stack.len() == 0 {
        return Some(Diagnostic::ProofNoSteps);
    }
    if state.stack.len() > 1 {
        return Some(Diagnostic::ProofExcessEnd);
    }
    let frame = &scopes.frames[state.cur_frame];
    proof {
        assert(scopes.frames@[state.cur_frame as int].wf());
    }
    let tos = &state.stack[0];
    if !bytes_eq(tos.code.as_slice(), frame.target.typecode.as_slice()) {
        return Some(Diagnostic::ProofWrongTypeEnd);
    }
    let mut expected: Vec<u8> = Vec::new();
    do_substitute_raw(&mut expected, &frame.target.tail, &frame.mandatory_vars);
    proof {
        assert(expected@ =~= subst_raw_spec(
            frame.target.tail@,
            Seq::new(frame.mandatory_vars@.len(), |i: int| frame.mandatory_vars@[i]@),
        ));
    }
    if !range_equals(state.stack_buffer.as_slice(), tos.expr, expected.as_slice()) {
        return Some(Diagnostic::ProofWrongExprEnd);
    }
    None
}

/// Records the optional DV pairs of the frame under check, in both directions.
fn register_optional_dv(state: &mut VerifyState, scopes: &ScopeResult)
    requires
        old(state).wf(scopes),
    ensures
        final(state).wf(scopes),
        final(state).cur_frame == old(state).cur_frame,
        final(state).stack == old(state).stack,
        final(state).stack_buffer == old(state).stack_buffer,
        final(state).prepared == old(state).prepared,
        final(state).prep_buffer == old(state).prep_buffer,
        final(state).machine() == register_m(
            old(state).machine(),
            pair_views(scopes.frames@[old(state).cur_frame as int].optional_dv@),
        ),
{
    let ghost m0 = state.machine();
    let frame = &scopes.frames[state.cur_frame];
    let ghost pv = pair_views(frame.optional_dv@);
    let mut i: usize = 0;
    proof {
        assert(pv.take(0) =~= Seq::<(Seq<u8>, Seq<u8>)>::empty());
    }
    while i < frame.optional_dv.len()
        invariant
            state.wf(scopes),
            frame == &scopes.frames@[state.cur_frame as int],
            state.cur_frame == old(state).cur_frame,
            state.stack == old(state).stack,
            state.stack_buffer == old(state).stack_buffer,
            state.prepared == old(state).prepared,
            state.prep_buffer == old(state).prep_buffer,
            i <= frame.optional_dv@.len(),
            pv == pair_views(frame.optional_dv@),
            m0 == old(state).machine(),
            state.machine() == register_m(m0, pv.take(i as int)),
        decreases frame.optional_dv@.len() - i,
    {
        let ghost mc = state.machine();
        let ghost n0 = state.var2bit@;
        let ix1 = map_var(&mut state.var2bit, &mut state.dv_map, frame.optional_dv[i].0.as_slice());
        let ghost n1 = state.var2bit@;
        proof {
            lemma_intern_step(n0, n1, ix1 as int, frame.optional_dv@[i as int].0@);
        }
        let ix2 = map_var(&mut state.var2bit, &mut state.dv_map, frame.optional_dv[i].1.as_slice());
        let ghost n2 = state.var2bit@;
        let ghost d1 = state.dv_map@;
        proof {
            lemma_intern_step(n1, n2, ix2 as int, frame.optional_dv@[i as int].1@);
        }
        link_dv(&mut state.dv_map, ix1, ix2);
        proof {
            let a = frame.optional_dv@[i as int].0@;
            let b = frame.optional_dv@[i as int].1@;
            assert(pv.take(i + 1).drop_last() =~= pv.take(i as int));
            assert(pv.take(i + 1).last() == (a, b));
            let names = state.machine().names;
            assert(names == intern1(intern1(mc.names, a), b));
            assert(n2[ix1 as int] == n1[ix1 as int]);
            lemma_index_in(names, a, ix1 as int, n2);
            lemma_index_in(names, b, ix2 as int, n2);
            let target = link_m(mc, a, b);
            let dv1 = grow_dv(mc.dv, names.len());
            assert forall|k: int| 0 <= k < d1.len() implies #[trigger] d1[k]@ == dv1[k] by {
                if k < n0.len() {
                    assert(mc.dv[k] == state.dv_map@[k]@ || true);
                }
            }
            assert forall|k: int| 0 <= k < state.dv_map@.len() implies #[trigger] state.machine().dv[k] == target.dv[k] by {
                assert(state.machine().dv[k] =~= target.dv[k]);
            }
            assert(state.machine().dv =~= target.dv);
            assert(state.machine().prepared =~= target.prepared);
            assert(state.machine().stack =~= target.stack);
        }
        i = i + 1;
    }
    proof {
        assert(pv.take(i as int) =~= pv);
    }
}

/// After interning `tok`, the names are the old ones, with `tok` added when
/// it was missing, and `r` is its position.
proof fn lemma_intern_step(n0: Seq<Vec<u8>>, n1: Seq<Vec<u8>>, r: int, tok: Seq<u8>)
    requires
        0 <= r < n1.len(),
        n1[r]@ == tok,
        n0.len() <= n1.len() <= n0.len() + 1,
        forall|i: int| 0 <= i < n0.len() ==> #[trigger] n1[i] == n0[i],
        (exists|i: int| 0 <= i < n0.len() && n0[i]@ == tok) ==> (r < n0.len() && n1 == n0),
    ensures
        Seq::new(n1.len(), |i: int| n1[i]@) == intern1(Seq::new(n0.len(), |i: int| n0[i]@), tok),
{
    let v0 = Seq::new(n0.len(), |i: int| n0[i]@);
    if v0.contains(tok) {
        let k = choose|k: int| 0 <= k < v0.len() && v0[k] == tok;
        assert(n0[k]@ == tok);
        assert(Seq::new(n1.len(), |i: int| n1[i]@) =~= v0);
    } else {
        if r < n0.len() {
            assert(n1[r] == n0[r]);
            assert(v0[r] == tok);
        }
        assert(Seq::new(n1.len(), |i: int| n1[i]@) =~= v0.push(tok));
    }
}

/// In distinct names, the position of a name is the one that holds it.
proof fn lemma_index_in(names: Seq<Seq<u8>>, tok: Seq<u8>, x: int, v: Seq<Vec<u8>>)
    requires
        names == Seq::new(v.len(), |i: int| v[i]@),
        distinct_names(v),
        0 <= x < names.len(),
        names[x] == tok,
    ensures
        index_in(names, tok) == x,
{
    let i = index_in(names, tok);
    assert(names[i] == tok);
    if i != x {
        if i < x {
            assert(v[i]@ != v[x]@);
        } else {
            assert(v[x]@ != v[i]@);
        }
    }
}

/// Marks `a` and `b` distinct from each other.
fn link_dv(dv_map: &mut Vec<Bitset>, a: usize, b: usize)
    requires
        a < old(dv_map)@.len(),
        b < old(dv_map)@.len(),
        forall|i: int| 0 <= i < old(dv_map)@.len() ==> (#[trigger] old(dv_map)@[i]).wf(),
        dv_symmetric(old(dv_map)@),
    ensures
        final(dv_map)@.len() == old(dv_map)@.len(),
        forall|i: int| 0 <= i < final(dv_map)@.len() ==> (#[trigger] final(dv_map)@[i]).wf(),
        dv_symmetric(final(dv_map)@),
        final(dv_map)@[a as int]@.contains(b as nat),
        final(dv_map)@[b as int]@.contains(a as nat),
        forall|i: int, j: nat|
            0 <= i < final(dv_map)@.len() ==> (#[trigger] final(dv_map)@[i]@.contains(j) <==> (
            old(dv_map)@[i]@.contains(j) || (i == a && j == b) || (i == b && j == a))),
{
    let ghost d0 = dv_map@;
    let mut row = dv_map[a].duplicate();
    row.set_bit(b);
    dv_map.set(a, row);
    let ghost d1 = dv_map@;
    let mut row = dv_map[b].duplicate();
    row.set_bit(a);
    dv_map.set(b, row);
    proof {
        assert forall|i: int, j: nat|
            0 <= i < dv_map@.len() implies (#[trigger] dv_map@[i]@.contains(j) <==> (d0[i]@.contains(j)
                || (i == a && j == b) || (i == b && j == a))) by {
            if i == b {
            } else if i == a {
            } else {
                assert(dv_map@[i] == d0[i]);
            }
        }
        assert forall|i: int, j: nat|
            0 <= i < dv_map@.len() && (#[trigger] dv_map@[i]@.contains(j)) implies j < dv_map@.len()
                && dv_map@[j as int]@.contains(i as nat) by {
            if d0[i]@.contains(j) {
                assert(d0[j as int]@.contains(i as nat));
                assert(dv_map@[j as int]@.contains(i as nat) <==> (d0[j as int]@.contains(i as nat)
                    || (j == a && i == b) || (j == b && i == a)));
            }
        }
    }
}

/// A statement as proof verification sees it: where it stands, its kind, its
/// label, and the tokens of its proof.
#[derive(Clone, Debug)]
pub struct Statement {
    pub address: StatementAddress,
    pub stype: StatementType,
    pub label: Vec<u8>,
    pub proof: Vec<Vec<u8>>,
}

/// Whether a token is the single byte `c`.
fn is_token(t: &[u8], c: u8) -> (r: bool)
    ensures
        r == (t@ == seq![c]),
{
    let r = t.len() == 1 && t[0] == c;
    proof {
        if t@.len() == 1 && t@[0] == c {
            assert(t@ =~= seq![c]);
        }
    }
    r
}

/// A fresh machine for checking the proof of frame `cur_frame`.
fn new_state(scopes: &ScopeResult, cur_frame: usize) -> (r: VerifyState)
    requires
        scopes.wf(),
        cur_frame < scopes.frames@.len(),
    ensures
        r.wf(scopes),
        r.cur_frame == cur_frame,
        r.stack@.len() == 0,
        r.prepared@.len() == 0,
        r.machine() == (Machine {
            cur: cur_frame as int,
            prepared: Seq::empty(),
            stack: Seq::empty(),
            names: Seq::empty(),
            dv: Seq::empty(),
        }),
{
    let r = VerifyState {
        cur_frame,
        prepared: Vec::new(),
        prep_buffer: Vec::new(),
        stack: Vec::new(),
        stack_buffer: Vec::new(),
        temp_buffer: Vec::new(),
        var2bit: Vec::new(),
        dv_map: Vec::new(),
    };
    proof {
        assert(r.machine().prepared =~= Seq::<Step>::empty());
        assert(r.machine().stack =~= Seq::<Slot>::empty());
        assert(r.machine().names =~= Seq::<Seq<u8>>::empty());
        assert(r.machine().dv =~= Seq::<Set<nat>>::empty());
    }
    r
}

/// Once a fold of preparations has failed, later labels change nothing.
proof fn lemma_prepare_all_stops(m: Machine, scopes: &ScopeResult, labels: Seq<Seq<u8>>, k: int)
    requires
        0 <= k <= labels.len(),
        prepare_all(m, scopes, labels.take(k)).1 is Some,
    ensures
        prepare_all(m, scopes, labels) == prepare_all(m, scopes, labels.take(k)),
    decreases labels.len() - k,
{
    if k < labels.len() {
        assert(labels.drop_last().take(k) =~= labels.take(k));
        lemma_prepare_all_stops(m, scopes, labels.drop_last(), k);
    } else {
        assert(labels.take(k) =~= labels);
    }
}

/// Once a run of operations has failed, later operations change nothing.
proof fn lemma_run_ops_stops(m: Machine, scopes: &ScopeResult, ops: Seq<ProofOp>, k: int)
    requires
        0 <= k <= ops.len(),
        run_ops_m(m, scopes, ops.take(k)).1 is Some,
    ensures
        run_ops_m(m, scopes, ops) == run_ops_m(m, scopes, ops.take(k)),
    decreases ops.len() - k,
{
    if k < ops.len() {
        assert(ops.drop_last().take(k) =~= ops.take(k));
        lemma_run_ops_stops(m, scopes, ops.drop_last(), k);
    } else {
        assert(ops.take(k) =~= ops);
    }
}

/// Once an uncompressed run has failed, later tokens change nothing.
proof fn lemma_uncompressed_stops(m: Machine, scopes: &ScopeResult, toks: Seq<Seq<u8>>, k: int, n: int)
    requires
        0 <= k <= n,
        uncompressed_m(m, scopes, toks, k).1 is Some,
    ensures
        uncompressed_m(m, scopes, toks, n) == uncompressed_m(m, scopes, toks, k),
    decreases n - k,
{
    if k < n {
        lemma_uncompressed_stops(m, scopes, toks, k, n - 1);
    }
}

/// The first `)` from `i` on is not before `i`.
proof fn lemma_close_index_ge(toks: Seq<Seq<u8>>, i: int)
    requires
        0 <= i,
    ensures
        close_index(toks, i) >= i || (i >= toks.len() && close_index(toks, i) == toks.len()),
        close_index(toks, i) <= toks.len() || i > toks.len(),
    decreases toks.len() - i,
{
    if i < toks.len() && toks[i] != seq![41u8] {
        lemma_close_index_ge(toks, i + 1);
    }
}

/// Runs decoded operations in order, stopping at the first error.
fn run_ops(state: &mut VerifyState, scopes: &ScopeResult, ops: &Vec<ProofOp>) -> (r: Option<
    Diagnostic,
>)
    requires
        old(state).wf(scopes),
        saves_follow_steps(ops@),
    ensures
        r is None ==> final(state).wf(scopes),
        final(state).cur_frame == old(state).cur_frame,
        final(state).machine() == run_ops_m(old(state).machine(), scopes, ops@).0,
        faults(r) == run_ops_m(old(state).machine(), scopes, ops@).1,
{
    let ghost m0 = state.machine();
    let mut j: usize = 0;
    proof {
        assert(ops@.take(0) =~= Seq::<ProofOp>::empty());
    }
    while j < ops.len()
        invariant
            state.wf(scopes),
            state.cur_frame == old(state).cur_frame,
            m0 == old(state).machine(),
            saves_follow_steps(ops@),
            j <= ops@.len(),
            j > 0 && ops@[j - 1] is Step ==> state.stack@.len() > 0,
            state.machine() == run_ops_m(m0, scopes, ops@.take(j as int)).0,
            run_ops_m(m0, scopes, ops@.take(j as int)).1 is None,
        decreases ops@.len() - j,
    {
        proof {
            assert(ops@.take(j + 1).drop_last() =~= ops@.take(j as int));
            assert(ops@.take(j + 1).last() == ops@[j as int]);
        }
        match ops[j] {
            ProofOp::Step(k) => {
                match execute_step(state, scopes, k) {
                    Some(e) => {
                        proof {
                            lemma_run_ops_stops(m0, scopes, ops@, j + 1);
                        }
                        return Some(e);
                    },
                    None => {},
                }
            },
            ProofOp::Save => {
                save_step(state, scopes);
            },
        }
        j = j + 1;
    }
    proof {
        assert(ops@.take(j as int) =~= ops@);
    }
    None
}

/// Runs a compressed proof: the frame's hypotheses, then the roster labels
/// up to `)`, are prepared; the remaining characters are decoded and run;
/// the stack is then checked.
#[verifier::spinoff_prover]
fn run_compressed(state: &mut VerifyState, scopes: &ScopeResult, frame: &Frame, proof: &Vec<Vec<u8>>) -> (r: Option<Diagnostic>)
    requires
        old(state).wf(scopes),
        frame == &scopes.frames@[old(state).cur_frame as int],
        proof@.len() > 0,
        proof@[0]@ == seq![40u8],
    ensures
        faults(r) == compressed_outcome(old(state).machine(), scopes, *frame, views(proof@)),
{
        let ghost m0 = state.machine();
        let ghost toks = views(proof@);
        let ghost hl = hyp_labels(*frame);
        proof {
            lemma_close_index_ge(toks, 1);
        }
        let mut h: usize = 0;
        proof {
            assert(hl.take(0) =~= Seq::<Seq<u8>>::empty());
        }
        while h < frame.hypotheses.len()
            invariant
                state.wf(scopes),
                state.cur_frame == old(state).cur_frame,
                frame == &scopes.frames@[old(state).cur_frame as int],
                hl == hyp_labels(*frame),
                m0 == old(state).machine(),
                toks == views(proof@),
                toks.len() > 0 && toks[0] == seq![40u8],
                h <= frame.hypotheses@.len(),
                state.machine() == prepare_all(m0, scopes, hl.take(h as int)).0,
                prepare_all(m0, scopes, hl.take(h as int)).1 is None,
            decreases frame.hypotheses@.len() - h,
        {
            proof {
                assert(hl.take(h + 1).drop_last() =~= hl.take(h as int));
                assert(hl.take(h + 1).last() == frame.hypotheses@[h as int].label@);
            }
            match prepare_step(state, scopes, frame.hypotheses[h].label.as_slice()) {
                Some(e) => {
                    proof {
                        lemma_prepare_all_stops(m0, scopes, hl, h + 1);
                    }
                    return Some(e);
                },
                None => {},
            }
            h = h + 1;
        }
        proof {
            assert(hl.take(h as int) =~= hl);
        }
        let ghost m1 = state.machine();
        let ghost close = close_index(toks, 1);
        let mut i: usize = 1;
        proof {
            assert(toks.subrange(1, 1) =~= Seq::<Seq<u8>>::empty());
        }
        loop
            invariant_except_break
                close_index(toks, i as int) == close,
                i <= close,
                state.machine() == prepare_all(m1, scopes, toks.subrange(1, i as int)).0,
                prepare_all(m1, scopes, toks.subrange(1, i as int)).1 is None,
            invariant
                state.wf(scopes),
                state.cur_frame == old(state).cur_frame,
                
                toks == views(proof@),
                1 <= i <= proof@.len(),
                close == close_index(toks, 1),
                frame == &scopes.frames@[old(state).cur_frame as int],
                m0 == old(state).machine(),
                toks.len() > 0 && toks[0] == seq![40u8],
                m1 == prepare_all(m0, scopes, hyp_labels(*frame)).0,
                prepare_all(m0, scopes, hyp_labels(*frame)).1 is None,
            ensures
                close == i - 1,
                close < toks.len(),
                state.machine() == prepare_all(m1, scopes, toks.subrange(1, close)).0,
                prepare_all(m1, scopes, toks.subrange(1, close)).1 is None,
            decreases proof@.len() - i,
        {
            if i >= proof.len() {
                proof {
                    assert(close == toks.len());
                    assert(toks.subrange(1, i as int) =~= toks.subrange(1, close));
                }
                return Some(Diagnostic::ProofUnterminatedRoster);
            }
            let chunk = proof[i].as_slice();
            proof {
                assert(toks[i as int] == chunk@);
            }
            if is_token(chunk, 41u8) {
                i = i + 1;
                break;
            }
            proof {
                assert(toks.subrange(1, i + 1).drop_last() =~= toks.subrange(1, i as int));
                assert(toks.subrange(1, i + 1).last() == chunk@);
                assert(chunk@ != seq![41u8]);
                assert(close_index(toks, i as int) == close_index(toks, i + 1));
                lemma_close_index_ge(toks, i + 1);
            }
            match prepare_step(state, scopes, chunk) {
                Some(e) => {
                    proof {
                        lemma_close_index_ge(toks, i + 1);
                        assert(i + 1 <= close);
                        assert(toks.subrange(1, close).take(i as int) =~= toks.subrange(1, i + 1));
                        lemma_prepare_all_stops(m1, scopes, toks.subrange(1, close), i as int);
                    }
                    return Some(e);
                },
                None => {},
            }
            i = i + 1;
        }
        let ghost m2 = state.machine();
        let mut digits: Vec<u8> = Vec::new();
        while i < proof.len()
            invariant
                
                toks == views(proof@),
                toks.len() == proof@.len(),
                close + 1 <= i <= proof@.len(),
                digits@ == concat_toks(toks, close + 1, i as int),
            decreases proof@.len() - i,
        {
            append_range(&mut digits, proof[i].as_slice(), 0, proof[i].len());
            proof {
                assert(proof@[i as int]@.subrange(0, proof@[i as int]@.len() as int) =~= toks[i as int]);
            }
            i = i + 1;
        }
        let (ops, stop) = decode_compressed(digits.as_slice());
        match run_ops(state, scopes, &ops) {
            Some(e) => {
                return Some(e);
            },
            None => {},
        }
        match stop {
            Some(e) => {
                return Some(e);
            },
            None => {},
        }
        finalize_step(state, scopes)
}

/// Runs an uncompressed proof: each token is prepared and run in turn, and
/// `?` marks an unfinished proof; the stack is then checked.
fn run_uncompressed(state: &mut VerifyState, scopes: &ScopeResult, proof: &Vec<Vec<u8>>) -> (r: Option<Diagnostic>)
    requires
        old(state).wf(scopes),
    ensures
        faults(r) == uncompressed_outcome(old(state).machine(), scopes, views(proof@)),
{
    let ghost m0 = state.machine();
    let ghost toks = views(proof@);
        let mut i: usize = 0;
        while i < proof.len()
            invariant
                state.wf(scopes),
                state.cur_frame == old(state).cur_frame,
                
                toks == views(proof@),
                
                m0 == old(state).machine(),
                i <= proof@.len(),
                state.machine() == uncompressed_m(m0, scopes, toks, i as int).0,
                uncompressed_m(m0, scopes, toks, i as int).1 is None,
            decreases proof@.len() - i,
        {
            proof {
                assert(toks[i as int] == proof@[i as int]@);
            }
            if is_token(proof[i].as_slice(), 63u8) {
                proof {
                    lemma_uncompressed_stops(m0, scopes, toks, i + 1, toks.len() as int);
                }
                return Some(Diagnostic::ProofIncomplete);
            }
            match prepare_step(state, scopes, proof[i].as_slice()) {
                Some(e) => {
                    proof {
                        lemma_uncompressed_stops(m0, scopes, toks, i + 1, toks.len() as int);
                    }
                    return Some(e);
                },
                None => {},
            }
            match execute_step(state, scopes, i) {
                Some(e) => {
                    proof {
                        lemma_uncompressed_stops(m0, scopes, toks, i + 1, toks.len() as int);
                    }
                    return Some(e);
                },
                None => {},
            }
            i = i + 1;
        }
    finalize_step(state, scopes)
}

/// Checks the proof of one statement and returns the first error found,
/// as `proof_outcome` states it. Only `$p` statements with a frame are
/// checked. A proof whose first token is `(` is compressed: the frame's
/// hypotheses, then the labels up to `)`, are prepared in order, and the
/// remaining characters are decoded and run; an error of the digit stream
/// itself counts only once every step before it has run. Otherwise each
/// token is a label, prepared and run in turn, and `?` marks an unfinished
/// proof. What is left on the stack is then compared with the statement.
pub fn verify_proof(scopes: &ScopeResult, stmt: &Statement) -> (r: Option<Diagnostic>)
    requires
        scopes.wf(),
    ensures
        faults(r) == proof_outcome(scopes, stmt),
        stmt.stype != StatementType::Provable ==> r is None,
        scopes.index_of(stmt.label@) is None ==> r is None,
{
    if stmt.stype != StatementType::Provable {
        return None;
    }
    let cur = match scopes.get(stmt.label.as_slice()) {
        Some(fi) => fi,
        None => {
            return None;
        },
    };
    let mut state = new_state(scopes, cur);
    register_optional_dv(&mut state, scopes);
    let frame = &scopes.frames[cur];
    let proof = &stmt.proof;
    proof {
        assert(views(stmt.proof@).len() > 0 ==> views(stmt.proof@)[0] == proof@[0]@);
    }
    if proof.len() > 0 && is_token(proof[0].as_slice(), 40u8) {
        run_compressed(&mut state, scopes, frame, proof)
    } else {
        run_uncompressed(&mut state, scopes, proof)
    }
}

/// A segment of the database: its id and its statements in order.
#[derive(Clone, Debug)]
pub struct Segment {
    pub id: u32,
    pub statements: Vec<Statement>,
}

/// The errors found in each segment, by statement address.
#[derive(Clone, Debug)]
pub struct VerifyResult {
    pub segments: Vec<(u32, Vec<(StatementAddress, Diagnostic)>)>,
}

/// A list of errors with each diagnostic in the machine's view.
pub open spec fn diag_faults(v: Seq<(StatementAddress, Diagnostic)>) -> Seq<(StatementAddress, Fault)> {
    Seq::new(v.len(), |i: int| (v[i].0, fault_of(v[i].1)))
}

/// The errors of a list of statements, in order: each statement whose
/// proof has an error, with that error.
pub open spec fn segment_outcomes(scopes: &ScopeResult, stmts: Seq<Statement>) -> Seq<(StatementAddress, Fault)>
    decreases stmts.len(),
{
    if stmts.len() == 0 {
        Seq::empty()
    } else {
        let prev = segment_outcomes(scopes, stmts.drop_last());
        match proof_outcome(scopes, &stmts.last()) {
            Some(f) => prev.push((stmts.last().address, f)),
            None => prev,
        }
    }
}

/// The errors of all segment results, one segment after another.
pub open spec fn all_faults(segs: Seq<(u32, Vec<(StatementAddress, Diagnostic)>)>) -> Seq<(StatementAddress, Fault)>
    decreases segs.len(),
{
    if segs.len() == 0 {
        Seq::empty()
    } else {
        all_faults(segs.drop_last()) + diag_faults(segs.last().1@)
    }
}

impl Diagnostic {
    /// A copy of the diagnostic.
    pub fn duplicate(&self) -> (r: Diagnostic)
        ensures
            fault_of(r) == fault_of(*self),
    {
        match self {
            Diagnostic::StepMissing(l) => Diagnostic::StepMissing(copy_bytes(l.as_slice())),
            Diagnostic::StepUsedBeforeDefinition(l) => Diagnostic::StepUsedBeforeDefinition(copy_bytes(l.as_slice())),
            Diagnostic::StepUsedAfterScope(l) => Diagnostic::StepUsedAfterScope(copy_bytes(l.as_slice())),
            Diagnostic::StepOutOfRange => Diagnostic::StepOutOfRange,
            Diagnostic::ProofUnderflow => Diagnostic::ProofUnderflow,
            Diagnostic::StepFloatWrongType => Diagnostic::StepFloatWrongType,
            Diagnostic::StepEssenWrongType => Diagnostic::StepEssenWrongType,
            Diagnostic::StepEssenWrong => Diagnostic::StepEssenWrong,
            Diagnostic::ProofDvViolation => Diagnostic::ProofDvViolation,
            Diagnostic::ProofNoSteps => Diagnostic::ProofNoSteps,
            Diagnostic::ProofExcessEnd => Diagnostic::ProofExcessEnd,
            Diagnostic::ProofWrongTypeEnd => Diagnostic::ProofWrongTypeEnd,
            Diagnostic::ProofWrongExprEnd => Diagnostic::ProofWrongExprEnd,
            Diagnostic::ProofUnterminatedRoster => Diagnostic::ProofUnterminatedRoster,
            Diagnostic::ProofMalformedVarint => Diagnostic::ProofMalformedVarint,
            Diagnostic::ProofInvalidSave => Diagnostic::ProofInvalidSave,
            Diagnostic::ProofIncomplete => Diagnostic::ProofIncomplete,
        }
    }
}

/// The errors of the statements of one segment, in statement order.
fn verify_segment(scopes: &ScopeResult, seg: &Segment) -> (r: Vec<(StatementAddress, Diagnostic)>)
    requires
        scopes.wf(),
    ensures
        diag_faults(r@) == segment_outcomes(scopes, seg.statements@),
{
    let mut out: Vec<(StatementAddress, Diagnostic)> = Vec::new();
    let mut k: usize = 0;
    proof {
        assert(diag_faults(out@) =~= segment_outcomes(scopes, seg.statements@.take(0)));
    }
    while k < seg.statements.len()
        invariant
            scopes.wf(),
            k <= seg.statements@.len(),
            diag_faults(out@) == segment_outcomes(scopes, seg.statements@.take(k as int)),
        decreases seg.statements@.len() - k,
    {
        let stmt = &seg.statements[k];
        let ghost prev = out@;
        proof {
            assert(seg.statements@.take(k + 1).drop_last() =~= seg.statements@.take(k as int));
            assert(seg.statements@.take(k + 1).last() == *stmt);
        }
        match verify_proof(scopes, stmt) {
            Some(d) => {
                out.push((stmt.address, d));
                proof {
                    assert(diag_faults(out@) =~= diag_faults(prev).push((stmt.address, fault_of(d))));
                }
            },
            None => {},
        }
        k = k + 1;
    }
    proof {
        assert(seg.statements@.take(k as int) =~= seg.statements@);
    }
    out
}

/// Checks every proof of every segment: segment `i` of the result holds
/// the id of segment `i` and the errors of its statements, in order.
pub fn verify(segments: &Vec<Segment>, scopes: &ScopeResult) -> (r: VerifyResult)
    requires
        scopes.wf(),
    ensures
        r.segments@.len() == segments@.len(),
        forall|i: int| 0 <= i < segments@.len() ==> (#[trigger] r.segments@[i]).0 == segments@[i].id
            && diag_faults(r.segments@[i].1@) == segment_outcomes(scopes, segments@[i].statements@),
{
    let mut out: Vec<(u32, Vec<(StatementAddress, Diagnostic)>)> = Vec::new();
    let mut i: usize = 0;
    while i < segments.len()
        invariant
            scopes.wf(),
            i <= segments@.len(),
            out@.len() == i,
            forall|j: int| 0 <= j < i ==> (#[trigger] out@[j]).0 == segments@[j].id
                && diag_faults(out@[j].1@) == segment_outcomes(scopes, segments@[j].statements@),
        decreases segments@.len() - i,
    {
        let diags = verify_segment(scopes, &segments[i]);
        out.push((segments[i].id, diags));
        i = i + 1;
    }
    VerifyResult { segments: out }
}

impl VerifyResult {
    /// Every error found, with the address of its statement, one segment
    /// after another.
    pub fn diagnostics(&self) -> (r: Vec<(StatementAddress, Diagnostic)>)
        ensures
            diag_faults(r@) == all_faults(self.segments@),
    {
        let mut out: Vec<(StatementAddress, Diagnostic)> = Vec::new();
        let mut i: usize = 0;
        proof {
            assert(diag_faults(out@) =~= all_faults(self.segments@.take(0)));
        }
        while i < self.segments.len()
            invariant
                i <= self.segments@.len(),
                diag_faults(out@) == all_faults(self.segments@.take(i as int)),
            decreases self.segments@.len() - i,
        {
            let seg = &self.segments[i].1;
            let ghost base = out@;
            let mut j: usize = 0;
            while j < seg.len()
                invariant
                    j <= seg@.len(),
                    seg == &self.segments@[i as int].1,
                    out@.len() == base.len() + j,
                    diag_faults(out@) == diag_faults(base) + diag_faults(seg@.take(j as int)),
                decreases seg@.len() - j,
            {
                let (sa, d) = &seg[j];
                let ghost before = out@;
                out.push((*sa, d.duplicate()));
                proof {
                    assert(diag_faults(seg@.take(j + 1)) =~= diag_faults(seg@.take(j as int)).push((*sa, fault_of(*d))));
                    assert(diag_faults(out@) =~= diag_faults(before).push((*sa, fault_of(*d))));
                }
                j = j + 1;
            }
            proof {
                assert(seg@.take(j as int) =~= seg@);
                assert(self.segments@.take(i + 1).drop_last() =~= self.segments@.take(i as int));
                assert(self.segments@.take(i + 1).last() == self.segments@[i as int]);
            }
            i = i + 1;
        }
        proof {
            assert(self.segments@.take(i as int) =~= self.segments@);
        }
        out
    }
}

/// The distinct-variable relation of a well-formed machine is symmetric:
/// whenever row `i` holds `j`, row `j` exists and holds `i`.
pub proof fn lemma_dv_symmetric(state: &VerifyState, scopes: &ScopeResult, i: int, j: nat)
    requires
        state.wf(scopes),
        0 <= i < state.dv_map@.len(),
        state.dv_map@[i]@.contains(j),
    ensures
        j < state.dv_map@.len(),
        state.dv_map@[j as int]@.contains(i as nat),
{
}

/// A stack slot as the proof machine sees it.
pub struct Slot {
    pub vars: Set<nat>,
    pub code: Seq<u8>,
    pub bytes: Seq<u8>,
}

/// A prepared step as the proof machine sees it.
pub enum Step {
    Hyp(Slot),
    Assert(int),
}

/// The state of the proof machine: the frame under check, the prepared
/// steps, the stack, the interned variable names and the DV relation.
pub struct Machine {
    pub cur: int,
    pub prepared: Seq<Step>,
    pub stack: Seq<Slot>,
    pub names: Seq<Seq<u8>>,
    pub dv: Seq<Set<nat>>,
}

/// An error as the proof machine sees it: labels as byte sequences.
pub enum Fault {
    Missing(Seq<u8>),
    BeforeDefinition(Seq<u8>),
    AfterScope(Seq<u8>),
    Plain(Diagnostic),
}

/// The machine's view of a diagnostic.
pub open spec fn fault_of(d: Diagnostic) -> Fault {
    match d {
        Diagnostic::StepMissing(l) => Fault::Missing(l@),
        Diagnostic::StepUsedBeforeDefinition(l) => Fault::BeforeDefinition(l@),
        Diagnostic::StepUsedAfterScope(l) => Fault::AfterScope(l@),
        _ => Fault::Plain(d),
    }
}

/// The machine's view of an optional diagnostic.
pub open spec fn faults(r: Option<Diagnostic>) -> Option<Fault> {
    match r {
        Some(d) => Some(fault_of(d)),
        None => None,
    }
}

impl VerifyState {
    /// The machine this state stands for.
    pub open spec fn machine(&self) -> Machine {
        Machine {
            cur: self.cur_frame as int,
            prepared: Seq::new(
                self.prepared@.len(),
                |i: int|
                    match self.prepared@[i] {
                        PreparedStep::Hyp(v, c, r) => Step::Hyp(
                            Slot { vars: v@, code: c@, bytes: range_bytes(self.prep_buffer@, r) },
                        ),
                        PreparedStep::Assert(fi) => Step::Assert(fi as int),
                    },
            ),
            stack: Seq::new(
                self.stack@.len(),
                |i: int|
                    Slot { vars: self.stack@[i].vars@, code: self.stack@[i].code@, bytes: self.slot_bytes(i) },
            ),
            names: Seq::new(self.var2bit@.len(), |i: int| self.var2bit@[i]@),
            dv: Seq::new(self.dv_map@.len(), |i: int| self.dv_map@[i]@),
        }
    }
}

/// `names` with each of `toks` added unless already present.
pub open spec fn intern_all(names: Seq<Seq<u8>>, toks: Seq<Seq<u8>>) -> Seq<Seq<u8>>
    decreases toks.len(),
{
    if toks.len() == 0 {
        names
    } else {
        let n = intern_all(names, toks.drop_last());
        if n.contains(toks.last()) {
            n
        } else {
            n.push(toks.last())
        }
    }
}

/// The indices of `names` holding one of `toks`.
pub open spec fn bits_of(names: Seq<Seq<u8>>, toks: Seq<Seq<u8>>) -> Set<nat> {
    Set::new(|j: nat| j < names.len() && toks.contains(names[j as int]))
}

/// `dv` with empty rows added up to `n` rows.
pub open spec fn grow_dv(dv: Seq<Set<nat>>, n: nat) -> Seq<Set<nat>> {
    dv + Seq::new((n - dv.len()) as nat, |i: int| Set::<nat>::empty())
}

/// The byte views of a list of names.
pub open spec fn views(v: Seq<Vec<u8>>) -> Seq<Seq<u8>> {
    Seq::new(v.len(), |i: int| v[i]@)
}

/// Preparing a cited label.
pub open spec fn prepare_m(m: Machine, scopes: &ScopeResult, label: Seq<u8>) -> (Machine, Option<Fault>) {
    match scopes.index_of(label) {
        None => (m, Some(Fault::Missing(label))),
        Some(fi) => {
            let f = scopes.frames@[fi];
            let pos = scopes.frames@[m.cur].valid_start;
            if !precedes(f.valid_start, pos) {
                (m, Some(Fault::BeforeDefinition(label)))
            } else if f.valid_end is Some && (pos.segment_id != f.valid_start.segment_id
                || pos.index >= f.valid_end->0) {
                (m, Some(Fault::AfterScope(label)))
            } else if f.stype == StatementType::Axiom || f.stype == StatementType::Provable {
                (Machine { prepared: m.prepared.push(Step::Assert(fi)), ..m }, None)
            } else {
                let mv = views(f.mandatory_vars@);
                let names = intern_all(m.names, mv);
                let slot = Slot { vars: bits_of(names, mv), code: f.target.typecode@, bytes: f.stub_expr@ };
                (
                    Machine {
                        prepared: m.prepared.push(Step::Hyp(slot)),
                        names,
                        dv: grow_dv(m.dv, names.len()),
                        ..m
                    },
                    None,
                )
            }
        },
    }
}

/// The values the first `k` hypotheses give the `nvars` variables.
pub open spec fn float_vals(stack: Seq<Slot>, hyps: Seq<Hyp>, sbase: int, k: int, nvars: nat) -> Seq<Seq<u8>>
    decreases k,
{
    if k <= 0 {
        Seq::new(nvars, |i: int| Seq::<u8>::empty())
    } else {
        let prev = float_vals(stack, hyps, sbase, k - 1, nvars);
        if hyps[k - 1].is_float {
            prev.update(hyps[k - 1].variable_index as int, stack[sbase + k - 1].bytes)
        } else {
            prev
        }
    }
}

/// The variable sets the first `k` hypotheses give the `nvars` variables.
pub open spec fn float_sets(stack: Seq<Slot>, hyps: Seq<Hyp>, sbase: int, k: int, nvars: nat) -> Seq<Set<nat>>
    decreases k,
{
    if k <= 0 {
        Seq::new(nvars, |i: int| Set::<nat>::empty())
    } else {
        let prev = float_sets(stack, hyps, sbase, k - 1, nvars);
        if hyps[k - 1].is_float {
            prev.update(hyps[k - 1].variable_index as int, stack[sbase + k - 1].vars)
        } else {
            prev
        }
    }
}

/// Hypothesis `ix`, if floating, has the typecode of its slot.
pub open spec fn float_type_ok(stack: Seq<Slot>, hyps: Seq<Hyp>, sbase: int, ix: int) -> bool {
    hyps[ix].is_float ==> stack[sbase + ix].code == hyps[ix].expr.typecode@
}

/// Checking the first `m` hypotheses as essential ones: the first essential
/// hypothesis whose slot has another typecode, or does not hold its
/// expression under `vals`, fails.
pub open spec fn essen_check(stack: Seq<Slot>, hyps: Seq<Hyp>, sbase: int, m: int, vals: Seq<Seq<u8>>) -> Option<
    Diagnostic,
>
    decreases m,
{
    if m <= 0 {
        None
    } else {
        match essen_check(stack, hyps, sbase, m - 1, vals) {
            Some(e) => Some(e),
            None => {
                let ix = m - 1;
                if hyps[ix].is_float {
                    None
                } else if stack[sbase + ix].code != hyps[ix].expr.typecode@ {
                    Some(Diagnostic::StepEssenWrongType)
                } else if stack[sbase + ix].bytes != subst_spec(hyps[ix].expr.tail@, vals) {
                    Some(Diagnostic::StepEssenWrong)
                } else {
                    None
                }
            },
        }
    }
}

/// Every variable substituted for one side of a DV pair is marked distinct
/// from every variable substituted for the other side.
pub open spec fn dv_holds(dv: Seq<Set<nat>>, sets: Seq<Set<nat>>, pairs: Seq<(usize, usize)>) -> bool {
    forall|d: int, v1: nat, v2: nat|
        0 <= d < pairs.len() && (#[trigger] sets[pairs[d].0 as int].contains(v1)) && (
        #[trigger] sets[pairs[d].1 as int].contains(v2)) ==> v1 < dv.len() && dv[v1 as int].contains(v2)
}

/// Running prepared step `index`.
pub open spec fn execute_m(m: Machine, scopes: &ScopeResult, index: int) -> (Machine, Option<Fault>) {
    if index < 0 || index >= m.prepared.len() {
        (m, Some(Fault::Plain(Diagnostic::StepOutOfRange)))
    } else {
        match m.prepared[index] {
            Step::Hyp(slot) => (Machine { stack: m.stack.push(slot), ..m }, None),
            Step::Assert(fi) => {
                let f = scopes.frames@[fi];
                let hyps = f.hypotheses@;
                let h = hyps.len();
                if m.stack.len() < h {
                    (m, Some(Fault::Plain(Diagnostic::ProofUnderflow)))
                } else {
                    let sbase = m.stack.len() - h;
                    let nv = f.mandatory_vars@.len();
                    if exists|ix: int| 0 <= ix < h && !#[trigger] float_type_ok(m.stack, hyps, sbase, ix) {
                        (m, Some(Fault::Plain(Diagnostic::StepFloatWrongType)))
                    } else {
                        let vals = float_vals(m.stack, hyps, sbase, h as int, nv);
                        let sets = float_sets(m.stack, hyps, sbase, h as int, nv);
                        match essen_check(m.stack, hyps, sbase, h as int, vals) {
                            Some(e) => (m, Some(Fault::Plain(e))),
                            None => {
                                let top = Slot {
                                    vars: subst_vars_spec(f.target.tail@, sets),
                                    code: f.target.typecode@,
                                    bytes: subst_spec(f.target.tail@, vals),
                                };
                                let m2 = Machine { stack: m.stack.take(sbase).push(top), ..m };
                                if dv_holds(m.dv, sets, f.mandatory_dv@) {
                                    (m2, None)
                                } else {
                                    (m2, Some(Fault::Plain(Diagnostic::ProofDvViolation)))
                                }
                            },
                        }
                    }
                }
            },
        }
    }
}

/// Saving the top of the stack as a prepared step.
pub open spec fn save_m(m: Machine) -> Machine {
    if m.stack.len() > 0 {
        Machine { prepared: m.prepared.push(Step::Hyp(m.stack.last())), ..m }
    } else {
        m
    }
}

/// The final check of the stack against the statement's own assertion.
pub open spec fn finalize_m(m: Machine, scopes: &ScopeResult) -> Option<Fault> {
    let f = scopes.frames@[m.cur];
    if m.stack.len() == 0 {
        Some(Fault::Plain(Diagnostic::ProofNoSteps))
    } else if m.stack.len() > 1 {
        Some(Fault::Plain(Diagnostic::ProofExcessEnd))
    } else if m.stack[0].code != f.target.typecode@ {
        Some(Fault::Plain(Diagnostic::ProofWrongTypeEnd))
    } else if m.stack[0].bytes != subst_raw_spec(f.target.tail@, views(f.mandatory_vars@)) {
        Some(Fault::Plain(Diagnostic::ProofWrongExprEnd))
    } else {
        None
    }
}

/// `names` with `tok` added unless already present.
pub open spec fn intern1(names: Seq<Seq<u8>>, tok: Seq<u8>) -> Seq<Seq<u8>> {
    if names.contains(tok) {
        names
    } else {
        names.push(tok)
    }
}

/// The position of `tok` in `names`.
pub open spec fn index_in(names: Seq<Seq<u8>>, tok: Seq<u8>) -> int {
    choose|i: int| 0 <= i < names.len() && names[i] == tok
}

/// Registering one optional DV pair, in both directions.
pub open spec fn link_m(m: Machine, a: Seq<u8>, b: Seq<u8>) -> Machine {
    let names = intern1(intern1(m.names, a), b);
    let dv1 = grow_dv(m.dv, names.len());
    let ia = index_in(names, a);
    let ib = index_in(names, b);
    let dv2 = dv1.update(ia, dv1[ia].insert(ib as nat));
    let dv3 = dv2.update(ib, dv2[ib].insert(ia as nat));
    Machine { names, dv: dv3, ..m }
}

/// The byte views of a list of name pairs.
pub open spec fn pair_views(v: Seq<(Vec<u8>, Vec<u8>)>) -> Seq<(Seq<u8>, Seq<u8>)> {
    Seq::new(v.len(), |i: int| (v[i].0@, v[i].1@))
}

/// Registering optional DV pairs in order.
pub open spec fn register_m(m: Machine, pairs: Seq<(Seq<u8>, Seq<u8>)>) -> Machine
    decreases pairs.len(),
{
    if pairs.len() == 0 {
        m
    } else {
        let p = pairs.last();
        link_m(register_m(m, pairs.drop_last()), p.0, p.1)
    }
}

/// Preparing labels in order, stopping at the first error.
pub open spec fn prepare_all(m: Machine, scopes: &ScopeResult, labels: Seq<Seq<u8>>) -> (Machine, Option<Fault>)
    decreases labels.len(),
{
    if labels.len() == 0 {
        (m, None)
    } else {
        let (m1, e) = prepare_all(m, scopes, labels.drop_last());
        if e is Some {
            (m1, e)
        } else {
            prepare_m(m1, scopes, labels.last())
        }
    }
}

/// Running decoded operations in order, stopping at the first error.
pub open spec fn run_ops_m(m: Machine, scopes: &ScopeResult, ops: Seq<ProofOp>) -> (Machine, Option<Fault>)
    decreases ops.len(),
{
    if ops.len() == 0 {
        (m, None)
    } else {
        let (m1, e) = run_ops_m(m, scopes, ops.drop_last());
        if e is Some {
            (m1, e)
        } else {
            match ops.last() {
                ProofOp::Step(k) => execute_m(m1, scopes, k as int),
                ProofOp::Save => (save_m(m1), None),
            }
        }
    }
}

/// Running the first `n` tokens of an uncompressed proof: `?` stops with
/// an unfinished proof, any other token is prepared and run.
pub open spec fn uncompressed_m(m: Machine, scopes: &ScopeResult, toks: Seq<Seq<u8>>, n: int) -> (Machine, Option<Fault>)
    decreases n,
{
    if n <= 0 {
        (m, None)
    } else {
        let (m1, e) = uncompressed_m(m, scopes, toks, n - 1);
        if e is Some {
            (m1, e)
        } else if toks[n - 1] == seq![63u8] {
            (m1, Some(Fault::Plain(Diagnostic::ProofIncomplete)))
        } else {
            let (m2, e2) = prepare_m(m1, scopes, toks[n - 1]);
            if e2 is Some {
                (m2, e2)
            } else {
                execute_m(m2, scopes, n - 1)
            }
        }
    }
}

/// The index of the first `)` token from `i` on, or the number of tokens.
pub open spec fn close_index(toks: Seq<Seq<u8>>, i: int) -> int
    decreases toks.len() - i,
{
    if i >= toks.len() {
        toks.len() as int
    } else if toks[i] == seq![41u8] {
        i
    } else {
        close_index(toks, i + 1)
    }
}

/// The characters of tokens `from..to`, run together.
pub open spec fn concat_toks(toks: Seq<Seq<u8>>, from: int, to: int) -> Seq<u8>
    decreases to - from,
{
    if to <= from {
        Seq::empty()
    } else {
        concat_toks(toks, from, to - 1) + toks[to - 1]
    }
}

/// The labels of a frame's hypotheses.
pub open spec fn hyp_labels(f: Frame) -> Seq<Seq<u8>> {
    Seq::new(f.hypotheses@.len(), |i: int| f.hypotheses@[i].label@)
}

/// The first error of a compressed proof run from machine `m0`.
pub open spec fn compressed_outcome(m0: Machine, scopes: &ScopeResult, f: Frame, toks: Seq<Seq<u8>>) -> Option<Fault> {
    let (m1, e1) = prepare_all(m0, scopes, hyp_labels(f));
    if e1 is Some {
        e1
    } else {
        let close = close_index(toks, 1);
        let (m2, e2) = prepare_all(m1, scopes, toks.subrange(1, close));
        if e2 is Some {
            e2
        } else if close >= toks.len() {
            Some(Fault::Plain(Diagnostic::ProofUnterminatedRoster))
        } else {
            let (ops, stop) = decode_spec(concat_toks(toks, close + 1, toks.len() as int));
            let (m3, e3) = run_ops_m(m2, scopes, ops);
            if e3 is Some {
                e3
            } else if stop is Some {
                Some(Fault::Plain(stop->0))
            } else {
                finalize_m(m3, scopes)
            }
        }
    }
}

/// The first error of an uncompressed proof run from machine `m0`.
pub open spec fn uncompressed_outcome(m0: Machine, scopes: &ScopeResult, toks: Seq<Seq<u8>>) -> Option<Fault> {
    let (m1, e1) = uncompressed_m(m0, scopes, toks, toks.len() as int);
    if e1 is Some {
        e1
    } else {
        finalize_m(m1, scopes)
    }
}

/// The first error in the proof of `stmt`, if any: only `$p` statements
/// with a frame are checked; optional DV pairs are registered first; a
/// proof whose first token is `(` is compressed (hypotheses, then roster
/// labels up to `)`, are prepared; the rest is decoded and run, an error
/// of the digit stream counting after the steps before it); otherwise each
/// token is prepared and run. The stack is then checked.
pub open spec fn proof_outcome(scopes: &ScopeResult, stmt: &Statement) -> Option<Fault> {
    if stmt.stype != StatementType::Provable {
        None
    } else {
        match scopes.index_of(stmt.label@) {
            None => None,
            Some(cur) => {
                let f = scopes.frames@[cur];
                let toks = views(stmt.proof@);
                let start = Machine { cur, prepared: Seq::empty(), stack: Seq::empty(), names: Seq::empty(), dv: Seq::empty() };
                let m0 = register_m(start, pair_views(f.optional_dv@));
                if toks.len() > 0 && toks[0] == seq![40u8] {
                    compressed_outcome(m0, scopes, f, toks)
                } else {
                    uncompressed_outcome(m0, scopes, toks)
                }
            },
        }
    }
}

/// Checking a proof gives the same outcome every time: the outcome is a
/// function of the frames and the statement alone.
pub proof fn lemma_outcome_deterministic(scopes: &ScopeResult, stmt: &Statement, r1: Option<Diagnostic>, r2: Option<Diagnostic>)
    requires
        faults(r1) == proof_outcome(scopes, stmt),
        faults(r2) == proof_outcome(scopes, stmt),
    ensures
        faults(r1) == faults(r2),
{
}

/// Once both names of an optional DV pair are interned, registering the
/// pair one way round or the other gives the same machine.
pub proof fn lemma_link_order(m: Machine, a: Seq<u8>, b: Seq<u8>)
    requires
        m.names.contains(a),
        m.names.contains(b),
        m.dv.len() == m.names.len(),
    ensures
        link_m(m, a, b) == link_m(m, b, a),
{
    let x = link_m(m, a, b);
    let y = link_m(m, b, a);
    assert(intern1(intern1(m.names, a), b) == m.names);
    assert(intern1(intern1(m.names, b), a) == m.names);
    assert(grow_dv(m.dv, m.names.len()) =~= m.dv);
    assert(x.dv =~= y.dv);
}

/// A statement's error is in its segment's list exactly when its proof has
/// that error.
proof fn lemma_segment_members(scopes: &ScopeResult, stmts: Seq<Statement>)
    ensures
        forall|x: (StatementAddress, Fault)|
            #[trigger] segment_outcomes(scopes, stmts).contains(x) <==> exists|j: int|
                0 <= j < stmts.len() && x.0 == stmts[j].address && proof_outcome(scopes, &stmts[j]) == Some(x.1),
    decreases stmts.len(),
{
    if stmts.len() > 0 {
        let init = stmts.drop_last();
        lemma_segment_members(scopes, init);
        let prev = segment_outcomes(scopes, init);
        assert forall|x: (StatementAddress, Fault)|
            #[trigger] segment_outcomes(scopes, stmts).contains(x) <==> exists|j: int|
                0 <= j < stmts.len() && x.0 == stmts[j].address && proof_outcome(scopes, &stmts[j]) == Some(x.1) by {
            let last = stmts.last();
            if segment_outcomes(scopes, stmts).contains(x) {
                if prev.contains(x) {
                    let j = choose|j: int| 0 <= j < init.len() && x.0 == init[j].address && proof_outcome(scopes, &init[j]) == Some(x.1);
                    assert(stmts[j] == init[j]);
                } else {
                    match proof_outcome(scopes, &last) {
                        Some(f) => {
                            let k = prev.len() as int;
                            let i = choose|i: int| 0 <= i < prev.push((last.address, f)).len() && prev.push((last.address, f))[i] == x;
                            if i < k {
                                assert(prev[i] == x);
                            }
                            assert(stmts[stmts.len() - 1] == last);
                        },
                        None => {},
                    }
                }
            }
            if exists|j: int| 0 <= j < stmts.len() && x.0 == stmts[j].address && proof_outcome(scopes, &stmts[j]) == Some(x.1) {
                let j = choose|j: int| 0 <= j < stmts.len() && x.0 == stmts[j].address && proof_outcome(scopes, &stmts[j]) == Some(x.1);
                if j < stmts.len() - 1 {
                    assert(init[j] == stmts[j]);
                    assert(prev.contains(x));
                    let i = choose|i: int| 0 <= i < prev.len() && prev[i] == x;
                    match proof_outcome(scopes, &last) {
                        Some(f) => {
                            assert(prev.push((last.address, f))[i] == x);
                        },
                        None => {},
                    }
                } else {
                    assert(stmts[j] == last);
                    let f = x.1;
                    assert(prev.push((last.address, f))[prev.len() as int] == x);
                }
            }
        }
    }
}

/// An error is in the concatenated lists exactly when it is in one of them.
proof fn lemma_all_members(segs: Seq<(u32, Vec<(StatementAddress, Diagnostic)>)>)
    ensures
        forall|x: (StatementAddress, Fault)|
            #[trigger] all_faults(segs).contains(x) <==> exists|i: int| 0 <= i < segs.len() && diag_faults(segs[i].1@).contains(x),
    decreases segs.len(),
{
    if segs.len() > 0 {
        let init = segs.drop_last();
        lemma_all_members(init);
        let a = all_faults(init);
        let b = diag_faults(segs.last().1@);
        assert(all_faults(segs) == a + b);
        assert forall|x: (StatementAddress, Fault)|
            #[trigger] all_faults(segs).contains(x) <==> exists|i: int| 0 <= i < segs.len() && diag_faults(segs[i].1@).contains(x) by {
            if (a + b).contains(x) {
                let k = choose|k: int| 0 <= k < (a + b).len() && (a + b)[k] == x;
                if k < a.len() {
                    assert(a[k] == x);
                    assert(a.contains(x));
                    let i = choose|i: int| 0 <= i < init.len() && diag_faults(init[i].1@).contains(x);
                    assert(segs[i] == init[i]);
                } else {
                    assert(b[k - a.len()] == x);
                    assert(segs[segs.len() - 1] == segs.last());
                }
            }
            if exists|i: int| 0 <= i < segs.len() && diag_faults(segs[i].1@).contains(x) {
                let i = choose|i: int| 0 <= i < segs.len() && diag_faults(segs[i].1@).contains(x);
                if i < segs.len() - 1 {
                    assert(init[i] == segs[i]);
                    assert(diag_faults(init[i].1@).contains(x));
                    assert(a.contains(x));
                    let k = choose|k: int| 0 <= k < a.len() && a[k] == x;
                    assert((a + b)[k] == x);
                } else {
                    assert(segs[i] == segs.last());
                    let k = choose|k: int| 0 <= k < b.len() && b[k] == x;
                    assert((a + b)[a.len() + k] == x);
                }
            }
        }
    }
}

/// As a set, the errors `diagnostics` lists after `verify` are exactly the
/// pairs of a statement's address and the error of its proof, over every
/// statement of every segment; the order in which segments were checked
/// plays no part.
pub proof fn lemma_diagnostics_set(
    segments: Seq<Segment>,
    scopes: &ScopeResult,
    res: &VerifyResult,
    out: Seq<(StatementAddress, Diagnostic)>,
)
    requires
        res.segments@.len() == segments.len(),
        forall|i: int| 0 <= i < segments.len() ==> (#[trigger] res.segments@[i]).0 == segments[i].id
            && diag_faults(res.segments@[i].1@) == segment_outcomes(scopes, segments[i].statements@),
        diag_faults(out) == all_faults(res.segments@),
    ensures
        forall|x: (StatementAddress, Fault)|
            #[trigger] diag_faults(out).contains(x) <==> exists|i: int, j: int|
                0 <= i < segments.len() && 0 <= j < segments[i].statements@.len()
                    && x.0 == segments[i].statements@[j].address
                    && proof_outcome(scopes, &segments[i].statements@[j]) == Some(x.1),
{
    lemma_all_members(res.segments@);
    assert forall|x: (StatementAddress, Fault)|
        #[trigger] diag_faults(out).contains(x) <==> exists|i: int, j: int|
            0 <= i < segments.len() && 0 <= j < segments[i].statements@.len()
                && x.0 == segments[i].statements@[j].address
                && proof_outcome(scopes, &segments[i].statements@[j]) == Some(x.1) by {
        if diag_faults(out).contains(x) {
            let i = choose|i: int| 0 <= i < res.segments@.len() && diag_faults(res.segments@[i].1@).contains(x);
            lemma_segment_members(scopes, segments[i].statements@);
            assert(segment_outcomes(scopes, segments[i].statements@).contains(x));
            let j = choose|j: int| 0 <= j < segments[i].statements@.len() && x.0 == segments[i].statements@[j].address
                && proof_outcome(scopes, &segments[i].statements@[j]) == Some(x.1);
        }
        if exists|i: int, j: int|
            0 <= i < segments.len() && 0 <= j < segments[i].statements@.len()
                && x.0 == segments[i].statements@[j].address
                && proof_outcome(scopes, &segments[i].statements@[j]) == Some(x.1) {
            let (i, j) = choose|i: int, j: int|
                0 <= i < segments.len() && 0 <= j < segments[i].statements@.len()
                    && x.0 == segments[i].statements@[j].address
                    && proof_outcome(scopes, &segments[i].statements@[j]) == Some(x.1);
            lemma_segment_members(scopes, segments[i].statements@);
            assert(segment_outcomes(scopes, segments[i].statements@).contains(x));
            assert(diag_faults(res.segments@[i].1@).contains(x));
        }
    }
}

} // verus!
