//! Lowering of a circuit into an IR function body.
//!
//! Every qubit handle is allocated on entry and released on exit. Each
//! classical register gets a result array sized by its largest declared
//! index, and the arrays form the function's output. Commands are lowered in
//! order, threading the handle last written to each bit; a classically
//! conditioned command becomes a branch into `then` / `else` / `continue`
//! blocks.
use vstd::prelude::*;

use crate::circuit::{regs_view, Circuit, Command, Conditional, OpBox, OpType, Operation, Register, BoxID, duplicate_registers};
use crate::ir::{blocks_view, Block, BlockKind, Gate, Handle, Instr};

verus! {

/// Why a circuit cannot be lowered.
#[derive(Clone, Copy, Debug, PartialEq, Eq, Structural)]
pub enum LowerError {
    /// The operation kind has no lowering.
    UnsupportedOperation(OpType),
    /// Only conditions on one bit, against 0 or 1, are lowered.
    UnsupportedCondition { width: u32, value: u32 },
    /// A conditional command without its conditional payload.
    MissingConditional,
    /// A rotation without its angle parameter.
    MissingParameter,
    /// A command with fewer registers than its operation needs.
    MissingArgument,
    /// A register with an empty index.
    EmptyIndex,
    /// A bit register with a negative index.
    NegativeIndex,
    /// A qubit operand that names no declared qubit.
    UnknownQubit,
    /// A bit operand that names no slot of a result array.
    UnknownBit,
    /// More measurements than the counter can number.
    TooManyMeasurements,
}

/// A classical register: its name and the number of slots of its result
/// array.
#[derive(Clone, Debug)]
pub struct ClassicalRegister {
    pub name: String,
    pub size: u64,
}

impl View for ClassicalRegister {
    type V = (Seq<char>, u64);

    open spec fn view(&self) -> (Seq<char>, u64) {
        (self.name@, self.size)
    }
}

pub open spec fn cregs_view(s: Seq<ClassicalRegister>) -> Seq<(Seq<char>, u64)> {
    s.map_values(|r: ClassicalRegister| r@)
}

/// The names of the bit registers of `bits`, each once, in the order of
/// their first appearance.
pub open spec fn distinct_names(bits: Seq<(Seq<char>, Seq<i64>)>) -> Seq<Seq<char>>
    decreases bits.len(),
{
    if bits.len() == 0 {
        Seq::empty()
    } else {
        let d = distinct_names(bits.drop_last());
        if d.contains(bits.last().0) {
            d
        } else {
            d.push(bits.last().0)
        }
    }
}

/// The largest first index of a bit of register `name` in `bits`, or -1.
pub open spec fn max_index(bits: Seq<(Seq<char>, Seq<i64>)>, name: Seq<char>) -> int
    decreases bits.len(),
{
    if bits.len() == 0 {
        -1
    } else {
        let m = max_index(bits.drop_last(), name);
        let b = bits.last();
        if b.0 == name && b.1.len() > 0 && b.1[0] > m {
            b.1[0] as int
        } else {
            m
        }
    }
}

/// Every bit has a first index, and none is negative.
pub open spec fn bits_valid(bits: Seq<(Seq<char>, Seq<i64>)>) -> bool {
    forall|i: int| 0 <= i < bits.len() ==> #[trigger] bits[i].1.len() > 0 && bits[i].1[0] >= 0
}

/// The register table of `bits`: one register per distinct name, in order of
/// first appearance, sized one past its largest index.
pub open spec fn register_table(bits: Seq<(Seq<char>, Seq<i64>)>) -> Seq<(Seq<char>, u64)> {
    distinct_names(bits).map_values(|n: Seq<char>| (n, (max_index(bits, n) + 1) as u64))
}

/// The error of building the register table of `bits`, if any: that of the
/// first bit without a first index or with a negative one.
pub open spec fn register_table_error(bits: Seq<(Seq<char>, Seq<i64>)>) -> Option<LowerError>
    decreases bits.len(),
{
    if bits.len() == 0 {
        None
    } else {
        match register_table_error(bits.drop_last()) {
            Some(e) => Some(e),
            None => if bits.last().1.len() == 0 {
                Some(LowerError::EmptyIndex)
            } else if bits.last().1[0] < 0 {
                Some(LowerError::NegativeIndex)
            } else {
                None
            },
        }
    }
}

proof fn lemma_register_table_error(bits: Seq<(Seq<char>, Seq<i64>)>)
    ensures
        register_table_error(bits) is None <==> bits_valid(bits),
    decreases bits.len(),
{
    if bits.len() > 0 {
        lemma_register_table_error(bits.drop_last());
        assert(bits_valid(bits) ==> bits_valid(bits.drop_last())) by {
            if bits_valid(bits) {
                assert forall|i: int| 0 <= i < bits.drop_last().len() implies #[trigger] bits.drop_last()[i].1.len() > 0
                    && bits.drop_last()[i].1[0] >= 0 by {
                    assert(bits.drop_last()[i] == bits[i]);
                }
            }
        }
        if bits_valid(bits.drop_last()) && bits.last().1.len() > 0 && bits.last().1[0] >= 0 {
            assert forall|i: int| 0 <= i < bits.len() implies #[trigger] bits[i].1.len() > 0 && bits[i].1[0] >= 0 by {
                if i < bits.len() - 1 {
                    assert(bits.drop_last()[i] == bits[i]);
                }
            }
        }
        if bits_valid(bits) {
            assert(bits[bits.len() - 1].1.len() > 0);
        }
    }
}

proof fn lemma_max_index_bounds(bits: Seq<(Seq<char>, Seq<i64>)>, name: Seq<char>)
    requires
        bits_valid(bits),
    ensures
        -1 <= max_index(bits, name) <= i64::MAX,
        distinct_names(bits).contains(name) ==> max_index(bits, name) >= 0,
        !distinct_names(bits).contains(name) ==> max_index(bits, name) == -1,
    decreases bits.len(),
{
    if bits.len() > 0 {
        assert(bits_valid(bits.drop_last())) by {
            assert forall|i: int| 0 <= i < bits.drop_last().len() implies #[trigger] bits.drop_last()[i].1.len() > 0
                && bits.drop_last()[i].1[0] >= 0 by {
                assert(bits.drop_last()[i] == bits[i]);
            }
        }
        lemma_max_index_bounds(bits.drop_last(), name);
        assert(bits[bits.len() - 1].1.len() > 0);
        let d = distinct_names(bits.drop_last());
        let x = bits.last().0;
        if d.contains(x) {
            assert(distinct_names(bits) == d);
        } else {
            let e = d.push(x);
            assert(distinct_names(bits) == e);
            assert(e[d.len() as int] == x);
            if d.contains(name) {
                let j = choose|j: int| 0 <= j < d.len() && d[j] == name;
                assert(e[j] == name);
            }
            if e.contains(name) {
                let j = choose|j: int| 0 <= j < e.len() && e[j] == name;
                if j < d.len() {
                    assert(d[j] == name);
                }
            }
        }
    }
}

proof fn lemma_distinct_names_unique(bits: Seq<(Seq<char>, Seq<i64>)>)
    ensures
        forall|i: int, j: int|
            0 <= i < j < distinct_names(bits).len() ==> distinct_names(bits)[i] != distinct_names(bits)[j],
    decreases bits.len(),
{
    if bits.len() > 0 {
        lemma_distinct_names_unique(bits.drop_last());
        let d = distinct_names(bits.drop_last());
        if !d.contains(bits.last().0) {
            assert forall|i: int, j: int| 0 <= i < j < d.len() + 1 implies d.push(bits.last().0)[i] != d.push(
                bits.last().0,
            )[j] by {
                if j == d.len() {
                    assert(d.push(bits.last().0)[i] == d[i]);
                }
            }
        }
    }
}

proof fn lemma_register_table_error_prefix(s: Seq<(Seq<char>, Seq<i64>)>, i: int)
    requires
        0 <= i <= s.len(),
        register_table_error(s.subrange(0, i)) is Some,
    ensures
        register_table_error(s) == register_table_error(s.subrange(0, i)),
    decreases s.len() - i,
{
    if i < s.len() {
        assert(s.subrange(0, i + 1).drop_last() =~= s.subrange(0, i));
        lemma_register_table_error_prefix(s, i + 1);
    } else {
        assert(s.subrange(0, i) =~= s);
    }
}

/// Finds the position of `name` in `regs`.
fn position_of_name(regs: &Vec<ClassicalRegister>, name: &String) -> (r: Option<usize>)
    ensures
        r matches Some(k) ==> k < regs@.len() && regs@[k as int].name@ == name@,
        r is None ==> forall|k: int| 0 <= k < regs@.len() ==> #[trigger] regs@[k].name@ != name@,
{
    let mut k: usize = 0;
    while k < regs.len()
        invariant
            k <= regs@.len(),
            forall|j: int| 0 <= j < k ==> #[trigger] regs@[j].name@ != name@,
        decreases regs.len() - k,
    {
        if regs[k].name == *name {
            return Some(k);
        }
        k = k + 1;
    }
    proof {
        reveal(bit_slot);
    }
    None
}

/// The register table of the circuit's bits: one register per distinct bit
/// register name, in order of first appearance, sized one past the largest
/// index of that name.
pub fn classical_registers(bits: &Vec<Register>) -> (r: Result<Vec<ClassicalRegister>, LowerError>)
    ensures
        match r {
            Ok(regs) => register_table_error(regs_view(bits@)) is None && cregs_view(regs@)
                == register_table(regs_view(bits@)),
            Err(e) => register_table_error(regs_view(bits@)) == Some(e),
        },
{
    let ghost bv = regs_view(bits@);
    let mut regs: Vec<ClassicalRegister> = Vec::new();
    let mut i: usize = 0;
    while i < bits.len()
        invariant
            i <= bits@.len(),
            bv == regs_view(bits@),
            register_table_error(bv.subrange(0, i as int)) is None,
            cregs_view(regs@) == register_table(bv.subrange(0, i as int)),
        decreases bits.len() - i,
    {
        let ghost pre = bv.subrange(0, i as int);
        let ghost cur = bv.subrange(0, i as int + 1);
        proof {
            assert(cur.drop_last() =~= pre);
            assert(cur.last() == bits@[i as int]@);
        }
        let bit = &bits[i];
        if bit.1.len() == 0 {
            proof {
                lemma_register_table_error_prefix(bv, i as int + 1);
            }
            return Err(LowerError::EmptyIndex);
        }
        let idx = bit.1[0];
        if idx < 0 {
            proof {
                lemma_register_table_error_prefix(bv, i as int + 1);
            }
            return Err(LowerError::NegativeIndex);
        }
        proof {
            lemma_register_table_error(pre);
            lemma_register_table_error(cur);
        }
        let found = position_of_name(&regs, &bit.0);
        match found {
            Some(k) => {
                proof {
                    assert(cregs_view(regs@).len() == distinct_names(pre).len());
                    assert(regs@[k as int]@ == register_table(pre)[k as int]);
                    assert(distinct_names(pre)[k as int] == bit.0@);
                    assert(distinct_names(pre).contains(bit.0@));
                    assert(distinct_names(cur) == distinct_names(pre));
                }
                let ghost old_regs = regs@;
                let size = regs[k].size;
                if (idx as u64) >= size {
                    let name = regs[k].name.clone();
                    regs.set(k, ClassicalRegister { name, size: idx as u64 + 1 });
                }
                proof {
                    lemma_max_index_bounds(pre, bit.0@);
                    assert forall|j: int| 0 <= j < regs@.len() implies #[trigger] cregs_view(regs@)[j]
                        == register_table(cur)[j] by {
                        let n = distinct_names(pre)[j];
                        assert(distinct_names(pre).contains(n)) by {
                            assert(distinct_names(pre)[j] == n);
                        }
                        lemma_max_index_bounds(pre, n);
                        assert(max_index(cur, n) == if n == bit.0@ && idx > max_index(pre, n) {
                            idx as int
                        } else {
                            max_index(pre, n)
                        });
                        assert(old_regs[j]@ == cregs_view(old_regs)[j]);
                        assert(cregs_view(old_regs)[j] == register_table(pre)[j]);
                        assert(register_table(cur)[j] == (n, (max_index(cur, n) + 1) as u64));
                        if j != k {
                            lemma_distinct_names_unique(pre);
                            assert(regs@[j] == old_regs[j]);
                            assert(n != bit.0@);
                        } else {
                            assert(n == bit.0@);
                        }
                    }
                    assert(cregs_view(regs@) =~= register_table(cur));
                }
            },
            None => {
                proof {
                    assert(!distinct_names(pre).contains(bit.0@)) by {
                        if distinct_names(pre).contains(bit.0@) {
                            let j = choose|j: int| 0 <= j < distinct_names(pre).len() && distinct_names(pre)[j] == bit.0@;
                            assert(register_table(pre).len() == distinct_names(pre).len());
                            assert(cregs_view(regs@).len() == regs@.len());
                            assert(cregs_view(regs@)[j] == register_table(pre)[j]);
                            assert(regs@[j]@ == cregs_view(regs@)[j]);
                            assert(regs@[j].name@ != bit.0@);
                        }
                    }
                    lemma_max_index_bounds(pre, bit.0@);
                }
                proof {
                    assert(cregs_view(regs@).len() == distinct_names(pre).len());
                }
                let ghost old_regs = regs@;
                let name = bit.0.clone();
                regs.push(ClassicalRegister { name, size: idx as u64 + 1 });
                proof {
                    assert(cregs_view(regs@).len() == distinct_names(pre).len() + 1);
                    assert(distinct_names(cur) == distinct_names(pre).push(bit.0@));
                    assert forall|j: int| 0 <= j < regs@.len() implies #[trigger] cregs_view(regs@)[j]
                        == register_table(cur)[j] by {
                        let n = distinct_names(cur)[j];
                        if j < regs@.len() - 1 {
                            assert(regs@[j] == old_regs[j]);
                            assert(cregs_view(old_regs)[j] == register_table(pre)[j]);
                            assert(distinct_names(pre)[j] == n);
                            assert(n != bit.0@);
                        }
                    }
                    assert(cregs_view(regs@) =~= register_table(cur));
                }
            },
        }
        i = i + 1;
    }
    proof {
        assert(bv.subrange(0, bits@.len() as int) =~= bv);
    }
    Ok(regs)
}

/// The registers of a circuit as the lowering sees them: the declared
/// qubits, in order, and the register table of its bits.
pub struct Layout {
    pub qubits: Vec<Register>,
    pub registers: Vec<ClassicalRegister>,
}

/// The model of a [`Layout`].
pub struct LayoutModel {
    pub qubits: Seq<(Seq<char>, Seq<i64>)>,
    pub registers: Seq<(Seq<char>, u64)>,
}

impl View for Layout {
    type V = LayoutModel;

    open spec fn view(&self) -> LayoutModel {
        LayoutModel { qubits: regs_view(self.qubits@), registers: cregs_view(self.registers@) }
    }
}

/// Qubit `i` of `qs` is the one that register `r` names: same name, same
/// first index.
pub open spec fn qubit_at(qs: Seq<(Seq<char>, Seq<i64>)>, r: (Seq<char>, Seq<i64>), i: int) -> bool {
    &&& 0 <= i < qs.len()
    &&& qs[i].1.len() > 0
    &&& r.1.len() > 0
    &&& qs[i].0 == r.0
    &&& qs[i].1[0] == r.1[0]
}

/// The first qubit of `qs` that `r` names.
#[verifier::opaque]
pub open spec fn qubit_index(qs: Seq<(Seq<char>, Seq<i64>)>, r: (Seq<char>, Seq<i64>)) -> Option<usize> {
    if exists|i: int| qubit_at(qs, r, i) {
        Some(
            (choose|i: int| qubit_at(qs, r, i) && forall|j: int| 0 <= j < i ==> !qubit_at(qs, r, j)) as usize,
        )
    } else {
        None
    }
}

/// Register `k` of `regs` has the name of bit `r`, and a slot at its first
/// index.
pub open spec fn bit_at(regs: Seq<(Seq<char>, u64)>, r: (Seq<char>, Seq<i64>), k: int) -> bool {
    &&& 0 <= k < regs.len()
    &&& r.1.len() > 0
    &&& regs[k].0 == r.0
    &&& 0 <= r.1[0] < regs[k].1
}

/// The register and offset of the slot of bit `r`: the first register of its
/// name, at its first index.
#[verifier::opaque]
pub open spec fn bit_slot(regs: Seq<(Seq<char>, u64)>, r: (Seq<char>, Seq<i64>)) -> Option<(usize, u64)> {
    if exists|k: int| bit_at(regs, r, k) {
        Some(
            (
                (choose|k: int| bit_at(regs, r, k) && forall|j: int| 0 <= j < k ==> !bit_at(regs, r, j)) as usize,
                r.1[0] as u64,
            ),
        )
    } else {
        None
    }
}

/// Finds the handle slot of the qubit that `reg` names.
pub fn qubit_slot(qubits: &Vec<Register>, reg: &Register) -> (r: Option<usize>)
    ensures
        r == qubit_index(regs_view(qubits@), reg@),
{
    let ghost qs = regs_view(qubits@);
    let mut i: usize = 0;
    while i < qubits.len()
        invariant
            i <= qubits@.len(),
            qs == regs_view(qubits@),
            forall|j: int| 0 <= j < i ==> !#[trigger] qubit_at(qs, reg@, j),
        decreases qubits.len() - i,
    {
        let q = &qubits[i];
        proof {
            assert(qs[i as int] == q@);
        }
        if q.1.len() > 0 && reg.1.len() > 0 && q.0 == reg.0 && q.1[0] == reg.1[0] {
            proof {
                reveal(qubit_index);
                assert(qubit_at(qs, reg@, i as int));
                let c = choose|c: int| qubit_at(qs, reg@, c) && forall|j: int| 0 <= j < c ==> !qubit_at(qs, reg@, j);
                assert(!(c < i));
                assert(!(i < c as int));
            }
            return Some(i);
        }
        proof {
            assert(!qubit_at(qs, reg@, i as int));
        }
        i = i + 1;
    }
    proof {
        reveal(qubit_index);
    }
    None
}

/// Finds the result-array slot of the bit that `reg` names.
pub fn result_slot(registers: &Vec<ClassicalRegister>, reg: &Register) -> (r: Option<(usize, u64)>)
    ensures
        r == bit_slot(cregs_view(registers@), reg@),
{
    let ghost rs = cregs_view(registers@);
    if reg.1.len() == 0 {
        proof {
            reveal(bit_slot);
            assert(forall|k: int| !bit_at(rs, reg@, k));
        }
        return None;
    }
    let idx = reg.1[0];
    let mut k: usize = 0;
    while k < registers.len()
        invariant
            k <= registers@.len(),
            rs == cregs_view(registers@),
            reg.1@.len() > 0,
            idx == reg.1@[0],
            forall|j: int| 0 <= j < k ==> !#[trigger] bit_at(rs, reg@, j),
        decreases registers.len() - k,
    {
        let cr = &registers[k];
        proof {
            assert(rs[k as int] == cr@);
        }
        if cr.name == reg.0 && idx >= 0 && (idx as u64) < cr.size {
            proof {
                reveal(bit_slot);
                assert(bit_at(rs, reg@, k as int));
                let c = choose|c: int| bit_at(rs, reg@, c) && forall|j: int| 0 <= j < c ==> !bit_at(rs, reg@, j);
                assert(!(c < k));
                assert(!(k < c as int));
            }
            return Some((k, idx as u64));
        }
        proof {
            assert(!bit_at(rs, reg@, k as int));
        }
        k = k + 1;
    }
    proof {
        reveal(bit_slot);
    }
    None
}

/// A record that the handle of measurement `result` was stored in slot
/// `offset` of register `register`.
#[derive(Clone, Copy, Debug, PartialEq, Eq, Structural)]
pub struct BitWrite {
    pub register: usize,
    pub offset: u64,
    pub result: usize,
}

/// The measurement whose handle was last stored in a slot, if any.
pub open spec fn last_write(w: Seq<BitWrite>, register: usize, offset: u64) -> Option<usize>
    decreases w.len(),
{
    if w.len() == 0 {
        None
    } else if w.last().register == register && w.last().offset == offset {
        Some(w.last().result)
    } else {
        last_write(w.drop_last(), register, offset)
    }
}

fn find_last_write(w: &Vec<BitWrite>, register: usize, offset: u64) -> (r: Option<usize>)
    ensures
        r == last_write(w@, register, offset),
{
    let mut i: usize = w.len();
    proof {
        assert(w@.subrange(0, i as int) =~= w@);
    }
    while i > 0
        invariant
            i <= w@.len(),
            last_write(w@, register, offset) == last_write(w@.subrange(0, i as int), register, offset),
        decreases i,
    {
        let ghost pre = w@.subrange(0, i as int);
        proof {
            assert(pre.last() == w@[i - 1]);
            assert(pre.drop_last() =~= w@.subrange(0, i - 1));
        }
        let bw = w[i - 1];
        if bw.register == register && bw.offset == offset {
            return Some(bw.result);
        }
        i = i - 1;
    }
    None
}

/// The handle that a bit holds before it is next written: the last
/// measurement stored in its slot, or else what the slot held on entry.
pub open spec fn previous_handle(w: Seq<BitWrite>, register: usize, offset: u64) -> Handle {
    match last_write(w, register, offset) {
        Some(k) => Handle::Measured(k),
        None => Handle::Stored { register, offset },
    }
}

/// The handle a condition reads from a bit: the last measurement stored in
/// its slot, or the canonical zero if none was.
pub open spec fn condition_handle(w: Seq<BitWrite>, register: usize, offset: u64) -> Handle {
    match last_write(w, register, offset) {
        Some(k) => Handle::Measured(k),
        None => Handle::Zero,
    }
}

/// The model of an [`Emitter`].
pub struct EmitState {
    pub blocks: Seq<(BlockKind, Seq<Instr>)>,
    pub current: nat,
    pub written: Seq<BitWrite>,
    pub measurements: nat,
}

impl EmitState {
    pub open spec fn wf(self) -> bool {
        self.current < self.blocks.len()
    }

    /// The instructions of the block being filled.
    pub open spec fn current_instrs(self) -> Seq<Instr> {
        self.blocks[self.current as int].1
    }
}

/// `st` with `s` appended to the block being filled.
pub open spec fn append(st: EmitState, s: Seq<Instr>) -> EmitState {
    EmitState {
        blocks: st.blocks.update(
            st.current as int,
            (st.blocks[st.current as int].0, st.blocks[st.current as int].1 + s),
        ),
        current: st.current,
        written: st.written,
        measurements: st.measurements,
    }
}

/// `st` with filling moved to block `b`.
pub open spec fn move_to(st: EmitState, b: nat) -> EmitState {
    EmitState { blocks: st.blocks, current: b, written: st.written, measurements: st.measurements }
}

/// The single-qubit gate that an operation kind names, if any.
pub open spec fn gate_of(t: OpType) -> Option<Gate> {
    match t {
        OpType::H => Some(Gate::H),
        OpType::X => Some(Gate::X),
        OpType::Y => Some(Gate::Y),
        OpType::Z => Some(Gate::Z),
        _ => None,
    }
}

/// The instructions of a measurement of qubit `q` into slot `offset` of
/// register `register`, numbered `k`, replacing the handle `prev`.
pub open spec fn measure_instrs(q: usize, register: usize, offset: u64, k: usize, prev: Handle) -> Seq<Instr> {
    seq![
        Instr::Measure { qubit: q, result: k },
        Instr::UpdateResultRef { handle: prev, delta: -1i32 },
        Instr::UpdateResultRef { handle: Handle::Measured(k), delta: 1i32 },
        Instr::StoreResult { register, offset, result: k },
    ]
}

/// The canonical handle that a one-bit condition compares against.
pub open spec fn condition_value(value: u32) -> Handle {
    if value == 1 {
        Handle::One
    } else {
        Handle::Zero
    }
}

/// The effect of lowering a single-qubit gate.
#[verifier::opaque]
pub open spec fn gate_spec(lay: LayoutModel, st: EmitState, op: Operation, args: Seq<(Seq<char>, Seq<i64>)>) -> Result<
    EmitState,
    LowerError,
> {
    if args.len() < 1 {
        Err(LowerError::MissingArgument)
    } else {
        match qubit_index(lay.qubits, args[0]) {
            None => Err(LowerError::UnknownQubit),
            Some(q) => Ok(append(st, seq![Instr::Gate { gate: gate_of(op.op_type)->0, qubit: q }])),
        }
    }
}

/// The effect of lowering a Z rotation.
#[verifier::opaque]
pub open spec fn rz_spec(lay: LayoutModel, st: EmitState, op: Operation, args: Seq<(Seq<char>, Seq<i64>)>) -> Result<
    EmitState,
    LowerError,
> {
    if args.len() < 1 {
        Err(LowerError::MissingArgument)
    } else if !(op.params matches Some(ps) && ps@.len() > 0) {
        Err(LowerError::MissingParameter)
    } else {
        match qubit_index(lay.qubits, args[0]) {
            None => Err(LowerError::UnknownQubit),
            Some(q) => Ok(append(st, seq![Instr::RotateZ { angle: op.params->0@[0], qubit: q }])),
        }
    }
}

/// The effect of lowering a controlled X.
#[verifier::opaque]
pub open spec fn cx_spec(lay: LayoutModel, st: EmitState, args: Seq<(Seq<char>, Seq<i64>)>) -> Result<
    EmitState,
    LowerError,
> {
    if args.len() < 2 {
        Err(LowerError::MissingArgument)
    } else {
        match (qubit_index(lay.qubits, args[0]), qubit_index(lay.qubits, args[1])) {
            (Some(c), Some(q)) => Ok(
                append(
                    st,
                    seq![
                        Instr::CreateControlWrapper { control: c },
                        Instr::ControlledX { control: c, target: q },
                        Instr::ReleaseControlWrapper { control: c },
                    ],
                ),
            ),
            _ => Err(LowerError::UnknownQubit),
        }
    }
}

/// The effect of lowering a measurement.
#[verifier::opaque]
pub open spec fn measure_spec(lay: LayoutModel, st: EmitState, args: Seq<(Seq<char>, Seq<i64>)>) -> Result<
    EmitState,
    LowerError,
> {
    if args.len() < 2 {
        Err(LowerError::MissingArgument)
    } else {
        match qubit_index(lay.qubits, args[0]) {
            None => Err(LowerError::UnknownQubit),
            Some(q) => match bit_slot(lay.registers, args[1]) {
                None => Err(LowerError::UnknownBit),
                Some((reg, off)) => if st.measurements >= usize::MAX {
                    Err(LowerError::TooManyMeasurements)
                } else {
                    let k = st.measurements as usize;
                    let st1 = append(st, measure_instrs(q, reg, off, k, previous_handle(st.written, reg, off)));
                    Ok(
                        EmitState {
                            blocks: st1.blocks,
                            current: st1.current,
                            written: st.written.push(BitWrite { register: reg, offset: off, result: k }),
                            measurements: st.measurements + 1,
                        },
                    )
                },
            },
        }
    }
}

/// The state in which the `then` block of a condition on slot `offset` of
/// register `register` is filled: the branch ends the block being filled,
/// and empty `then`, `else` and `continue` blocks follow the existing ones.
pub open spec fn open_branch(st: EmitState, register: usize, offset: u64, value: u32) -> EmitState {
    let n = st.blocks.len();
    let branch = Instr::BranchIfEqual {
        lhs: condition_handle(st.written, register, offset),
        rhs: condition_value(value),
        then_block: n as usize,
        else_block: (n + 1) as usize,
    };
    let st0 = append(st, seq![branch]);
    EmitState {
        blocks: st0.blocks + seq![
            (BlockKind::Then, Seq::<Instr>::empty()),
            (BlockKind::Else, Seq::<Instr>::empty()),
            (BlockKind::Continue, Seq::<Instr>::empty()),
        ],
        current: n,
        written: st0.written,
        measurements: st0.measurements,
    }
}

/// The state after the `then` block, filled up to state `st`, and the empty
/// `else` block both jump to the `continue` block `n + 2`, which is filled
/// next.
pub open spec fn close_branch(st: EmitState, n: nat) -> EmitState {
    let jump = seq![Instr::Branch { target: (n + 2) as usize }];
    move_to(append(move_to(append(st, jump), n + 1), jump), n + 2)
}

/// The effect of lowering a classically conditioned operation.
pub open spec fn conditional_spec(
    lay: LayoutModel,
    st: EmitState,
    op: Operation,
    args: Seq<(Seq<char>, Seq<i64>)>,
) -> Result<EmitState, LowerError>
    decreases op, 0nat,
{
    match op.conditional {
        None => Err(LowerError::MissingConditional),
        Some(cond) => if args.len() < 1 {
            Err(LowerError::MissingArgument)
        } else if cond.width != 1 || cond.value > 1 {
            Err(LowerError::UnsupportedCondition { width: cond.width, value: cond.value })
        } else {
            match bit_slot(lay.registers, args[0]) {
                None => Err(LowerError::UnknownBit),
                Some((reg, off)) => {
                    let st1 = open_branch(st, reg, off, cond.value);
                    let inner = match (*cond.op).op_box {
                        Some(OpBox::CircBox { circuit, .. }) => lower_cmds_spec(lay, st1, circuit.commands@),
                        _ => lower_op_spec(lay, st1, *cond.op, args.drop_first()),
                    };
                    match inner {
                        Err(e) => Err(e),
                        Ok(st2) => Ok(close_branch(st2, st.blocks.len())),
                    }
                },
            }
        },
    }
}

/// The effect of lowering operation `op` on registers `args` from state
/// `st`.
pub open spec fn lower_op_spec(
    lay: LayoutModel,
    st: EmitState,
    op: Operation,
    args: Seq<(Seq<char>, Seq<i64>)>,
) -> Result<EmitState, LowerError>
    decreases op, 1nat,
{
    match op.op_type {
        OpType::H | OpType::X | OpType::Y | OpType::Z => gate_spec(lay, st, op, args),
        OpType::Rz => rz_spec(lay, st, op, args),
        OpType::CX => cx_spec(lay, st, args),
        OpType::Measure => measure_spec(lay, st, args),
        OpType::Conditional => conditional_spec(lay, st, op, args),
        _ => Err(LowerError::UnsupportedOperation(op.op_type)),
    }
}

/// Lowering an operation is lowering it by the case of its kind.
pub proof fn lemma_lower_op_unfold(lay: LayoutModel, st: EmitState, op: Operation, av: Seq<(Seq<char>, Seq<i64>)>)
    ensures
        gate_of(op.op_type) is Some ==> lower_op_spec(lay, st, op, av) == gate_spec(lay, st, op, av),
        op.op_type == OpType::Rz ==> lower_op_spec(lay, st, op, av) == rz_spec(lay, st, op, av),
        op.op_type == OpType::CX ==> lower_op_spec(lay, st, op, av) == cx_spec(lay, st, av),
        op.op_type == OpType::Measure ==> lower_op_spec(lay, st, op, av) == measure_spec(lay, st, av),
        op.op_type == OpType::Conditional ==> lower_op_spec(lay, st, op, av) == conditional_spec(lay, st, op, av),
        gate_of(op.op_type) is None && op.op_type != OpType::Rz && op.op_type != OpType::CX && op.op_type
            != OpType::Measure && op.op_type != OpType::Conditional ==> lower_op_spec(lay, st, op, av)
            == Err::<EmitState, LowerError>(LowerError::UnsupportedOperation(op.op_type)),
{
}

/// The effect of lowering `cmds` in order from state `st`: the first error,
/// or the final state.
pub open spec fn lower_cmds_spec(lay: LayoutModel, st: EmitState, cmds: Seq<Command>) -> Result<
    EmitState,
    LowerError,
>
    decreases cmds, 2nat,
{
    if cmds.len() == 0 {
        Ok(st)
    } else {
        match lower_op_spec(lay, st, cmds[0].op, regs_view(cmds[0].args@)) {
            Err(e) => Err(e),
            Ok(st1) => lower_cmds_spec(lay, st1, cmds.subrange(1, cmds.len() as int)),
        }
    }
}

/// The mutable context of one lowering: the blocks emitted so far, the block
/// being filled, the record of handles stored in bits, and the number of
/// measurements emitted.
pub struct Emitter {
    pub blocks: Vec<Block>,
    pub current: usize,
    pub written: Vec<BitWrite>,
    pub measurements: usize,
}

impl View for Emitter {
    type V = EmitState;

    open spec fn view(&self) -> EmitState {
        EmitState {
            blocks: blocks_view(self.blocks@),
            current: self.current as nat,
            written: self.written@,
            measurements: self.measurements as nat,
        }
    }
}

impl Emitter {
    /// Appends `instrs` to the block being filled.
    fn emit(&mut self, instrs: Vec<Instr>)
        requires
            old(self)@.wf(),
        ensures
            final(self)@ == append(old(self)@, instrs@),
    {
        let ghost added = instrs@;
        let c = self.current;
        let mut instrs = instrs;
        self.blocks[c].instrs.append(&mut instrs);
        proof {
            assert(blocks_view(self.blocks@) =~= append(old(self)@, added).blocks);
        }
    }

    /// Lowers a single-qubit gate.
    fn lower_gate(&mut self, lay: &Layout, op: &Operation, args: &Vec<Register>, from: usize) -> (r: Result<(), LowerError>)
        requires
            old(self)@.wf(),
            from <= args@.len(),
            gate_of(op.op_type) is Some,
        ensures
            match r {
                Ok(()) => gate_spec(lay@, old(self)@, *op, regs_view(args@.subrange(from as int, args@.len() as int)))
                    == Ok::<EmitState, LowerError>(final(self)@),
                Err(e) => gate_spec(lay@, old(self)@, *op, regs_view(args@.subrange(from as int, args@.len() as int)))
                    == Err::<EmitState, LowerError>(e),
            },
            r is Ok ==> final(self)@.wf() && final(self)@.blocks.len() >= old(self)@.blocks.len(),
    {
        reveal(gate_spec);
        let ghost av = regs_view(args@.subrange(from as int, args@.len() as int));
        let n_args = args.len() - from;
        proof {
            assert(av.len() == n_args);
            if n_args >= 1 {
                assert(av[0] == args@[from as int]@);
            }
            if n_args >= 2 {
                assert(av[1] == args@[from + 1]@);
            }
        }
        if n_args < 1 {
            return Err(LowerError::MissingArgument);
        }
        let gate = match op.op_type {
            OpType::H => Gate::H,
            OpType::X => Gate::X,
            OpType::Y => Gate::Y,
            _ => Gate::Z,
        };
        match qubit_slot(&lay.qubits, &args[from]) {
            None => Err(LowerError::UnknownQubit),
            Some(q) => {
                self.emit_one(Instr::Gate { gate, qubit: q });
                Ok(())
            },
        }
    }

    /// Lowers a Z rotation.
    fn lower_rz(&mut self, lay: &Layout, op: &Operation, args: &Vec<Register>, from: usize) -> (r: Result<(), LowerError>)
        requires
            old(self)@.wf(),
            from <= args@.len(),
            op.op_type == OpType::Rz,
        ensures
            match r {
                Ok(()) => rz_spec(lay@, old(self)@, *op, regs_view(args@.subrange(from as int, args@.len() as int)))
                    == Ok::<EmitState, LowerError>(final(self)@),
                Err(e) => rz_spec(lay@, old(self)@, *op, regs_view(args@.subrange(from as int, args@.len() as int)))
                    == Err::<EmitState, LowerError>(e),
            },
            r is Ok ==> final(self)@.wf() && final(self)@.blocks.len() >= old(self)@.blocks.len(),
    {
        reveal(rz_spec);
        let ghost av = regs_view(args@.subrange(from as int, args@.len() as int));
        let n_args = args.len() - from;
        proof {
            assert(av.len() == n_args);
            if n_args >= 1 {
                assert(av[0] == args@[from as int]@);
            }
            if n_args >= 2 {
                assert(av[1] == args@[from + 1]@);
            }
        }
        if n_args < 1 {
            return Err(LowerError::MissingArgument);
        }
        let angle = match &op.params {
            Some(ps) => {
                if ps.len() == 0 {
                    return Err(LowerError::MissingParameter);
                }
                ps[0].clone()
            },
            None => {
                return Err(LowerError::MissingParameter);
            },
        };
        match qubit_slot(&lay.qubits, &args[from]) {
            None => Err(LowerError::UnknownQubit),
            Some(q) => {
                self.emit_one(Instr::RotateZ { angle, qubit: q });
                Ok(())
            },
        }
    }

    /// Lowers a controlled X: the controlled call, bracketed by the creation
    /// and release of the control wrapper.
    fn lower_cx(&mut self, lay: &Layout, op: &Operation, args: &Vec<Register>, from: usize) -> (r: Result<(), LowerError>)
        requires
            old(self)@.wf(),
            from <= args@.len(),
            op.op_type == OpType::CX,
        ensures
            match r {
                Ok(()) => cx_spec(lay@, old(self)@, regs_view(args@.subrange(from as int, args@.len() as int)))
                    == Ok::<EmitState, LowerError>(final(self)@),
                Err(e) => cx_spec(lay@, old(self)@, regs_view(args@.subrange(from as int, args@.len() as int)))
                    == Err::<EmitState, LowerError>(e),
            },
            r is Ok ==> final(self)@.wf() && final(self)@.blocks.len() >= old(self)@.blocks.len(),
    {
        reveal(cx_spec);
        let ghost av = regs_view(args@.subrange(from as int, args@.len() as int));
        let n_args = args.len() - from;
        proof {
            assert(av.len() == n_args);
            if n_args >= 1 {
                assert(av[0] == args@[from as int]@);
            }
            if n_args >= 2 {
                assert(av[1] == args@[from + 1]@);
            }
        }
        if n_args < 2 {
            return Err(LowerError::MissingArgument);
        }
        let control = qubit_slot(&lay.qubits, &args[from]);
        let target = qubit_slot(&lay.qubits, &args[from + 1]);
        match (control, target) {
            (Some(c), Some(q)) => {
                let mut v: Vec<Instr> = Vec::new();
                v.push(Instr::CreateControlWrapper { control: c });
                v.push(Instr::ControlledX { control: c, target: q });
                v.push(Instr::ReleaseControlWrapper { control: c });
                proof {
                    assert(v@ =~= seq![
                        Instr::CreateControlWrapper { control: c },
                        Instr::ControlledX { control: c, target: q },
                        Instr::ReleaseControlWrapper { control: c },
                    ]);
                }
                self.emit(v);
                Ok(())
            },
            _ => Err(LowerError::UnknownQubit),
        }
    }

    /// Lowers a measurement: the measurement call, then the release of the
    /// bit's previous handle, the retention of the new one and its store.
    fn lower_measure(&mut self, lay: &Layout, op: &Operation, args: &Vec<Register>, from: usize) -> (r: Result<(), LowerError>)
        requires
            old(self)@.wf(),
            from <= args@.len(),
            op.op_type == OpType::Measure,
        ensures
            match r {
                Ok(()) => measure_spec(lay@, old(self)@, regs_view(args@.subrange(from as int, args@.len() as int)))
                    == Ok::<EmitState, LowerError>(final(self)@),
                Err(e) => measure_spec(lay@, old(self)@, regs_view(args@.subrange(from as int, args@.len() as int)))
                    == Err::<EmitState, LowerError>(e),
            },
            r is Ok ==> final(self)@.wf() && final(self)@.blocks.len() >= old(self)@.blocks.len(),
    {
        reveal(measure_spec);
        let ghost av = regs_view(args@.subrange(from as int, args@.len() as int));
        let n_args = args.len() - from;
        proof {
            assert(av.len() == n_args);
            if n_args >= 1 {
                assert(av[0] == args@[from as int]@);
            }
            if n_args >= 2 {
                assert(av[1] == args@[from + 1]@);
            }
        }
        if n_args < 2 {
            return Err(LowerError::MissingArgument);
        }
        let q = match qubit_slot(&lay.qubits, &args[from]) {
            None => {
                return Err(LowerError::UnknownQubit);
            },
            Some(q) => q,
        };
        let (reg, off) = match result_slot(&lay.registers, &args[from + 1]) {
            None => {
                return Err(LowerError::UnknownBit);
            },
            Some(slot) => slot,
        };
        if self.measurements == usize::MAX {
            return Err(LowerError::TooManyMeasurements);
        }
        let k = self.measurements;
        let prev = match find_last_write(&self.written, reg, off) {
            Some(k0) => Handle::Measured(k0),
            None => Handle::Stored { register: reg, offset: off },
        };
        let mut v: Vec<Instr> = Vec::new();
        v.push(Instr::Measure { qubit: q, result: k });
        v.push(Instr::UpdateResultRef { handle: prev, delta: -1i32 });
        v.push(Instr::UpdateResultRef { handle: Handle::Measured(k), delta: 1i32 });
        v.push(Instr::StoreResult { register: reg, offset: off, result: k });
        proof {
            assert(v@ =~= measure_instrs(q, reg, off, k, previous_handle(self@.written, reg, off)));
        }
        self.emit(v);
        self.written.push(BitWrite { register: reg, offset: off, result: k });
        self.measurements = k + 1;
        Ok(())
    }

    /// Lowers a classically conditioned operation into a branch to a `then`
    /// block that runs it, an empty `else` block and a `continue` block
    /// where both join.
    fn lower_conditional(&mut self, lay: &Layout, op: &Operation, args: &Vec<Register>, from: usize) -> (r: Result<(), LowerError>)
        requires
            old(self)@.wf(),
            from <= args@.len(),
            op.op_type == OpType::Conditional,
        ensures
            match r {
                Ok(()) => conditional_spec(lay@, old(self)@, *op, regs_view(args@.subrange(from as int, args@.len() as int)))
                    == Ok::<EmitState, LowerError>(final(self)@),
                Err(e) => conditional_spec(lay@, old(self)@, *op, regs_view(args@.subrange(from as int, args@.len() as int)))
                    == Err::<EmitState, LowerError>(e),
            },
            r is Ok ==> final(self)@.wf() && final(self)@.blocks.len() >= old(self)@.blocks.len(),
        decreases op, 0nat,
    {
        let ghost av = regs_view(args@.subrange(from as int, args@.len() as int));
        let n_args = args.len() - from;
        proof {
            assert(av.len() == n_args);
            if n_args >= 1 {
                assert(av[0] == args@[from as int]@);
            }
            if n_args >= 2 {
                assert(av[1] == args@[from + 1]@);
            }
        }
        let cond = match &op.conditional {
            None => {
                return Err(LowerError::MissingConditional);
            },
            Some(c) => c,
        };
        if n_args < 1 {
            return Err(LowerError::MissingArgument);
        }
        if cond.width != 1 || cond.value > 1 {
            return Err(LowerError::UnsupportedCondition { width: cond.width, value: cond.value });
        }
        let (reg, off) = match result_slot(&lay.registers, &args[from]) {
            None => {
                return Err(LowerError::UnknownBit);
            },
            Some(slot) => slot,
        };
        let lhs = match find_last_write(&self.written, reg, off) {
            Some(k0) => Handle::Measured(k0),
            None => Handle::Zero,
        };
        let rhs = if cond.value == 1 {
            Handle::One
        } else {
            Handle::Zero
        };
        let ghost st = self@;
        let n = self.blocks.len();
        let ghost three = seq![
            (BlockKind::Then, Seq::<Instr>::empty()),
            (BlockKind::Else, Seq::<Instr>::empty()),
            (BlockKind::Continue, Seq::<Instr>::empty()),
        ];
        self.blocks.push(Block { kind: BlockKind::Then, instrs: Vec::new() });
        let else_block = self.blocks.len();
        self.blocks.push(Block { kind: BlockKind::Else, instrs: Vec::new() });
        let continue_block = self.blocks.len();
        self.blocks.push(Block { kind: BlockKind::Continue, instrs: Vec::new() });
        proof {
            assert(self@.blocks =~= st.blocks + three);
        }
        let ghost mid = self@;
        let branch = Instr::BranchIfEqual { lhs, rhs, then_block: n, else_block };
        self.emit_one(branch);
        self.current = n;
        proof {
            let st0 = append(st, seq![branch]);
            assert(branch == Instr::BranchIfEqual {
                lhs: condition_handle(st.written, reg, off),
                rhs: condition_value(cond.value),
                then_block: n,
                else_block: (n + 1) as usize,
            });
            assert(self@.blocks =~= st0.blocks + three);
            assert(args@.subrange(from + 1, args@.len() as int) =~= args@.subrange(
                from as int,
                args@.len() as int,
            ).drop_first());
            assert(regs_view(args@.subrange(from + 1, args@.len() as int)) =~= av.drop_first());
        }
        let inner: &Operation = &cond.op;
        let res = match &inner.op_box {
            Some(OpBox::CircBox { circuit, .. }) => self.lower_cmds(lay, &circuit.commands),
            _ => self.lower_op(lay, inner, args, from + 1),
        };
        match res {
            Err(e) => {
                return Err(e);
            },
            Ok(()) => {},
        }
        self.emit_one(Instr::Branch { target: continue_block });
        self.current = else_block;
        self.emit_one(Instr::Branch { target: continue_block });
        self.current = continue_block;
        Ok(())
    }

    /// Appends `i` to the block being filled.
    fn emit_one(&mut self, i: Instr)
        requires
            old(self)@.wf(),
        ensures
            final(self)@ == append(old(self)@, seq![i]),
    {
        let mut v: Vec<Instr> = Vec::new();
        v.push(i);
        proof {
            assert(v@ =~= seq![i]);
        }
        self.emit(v);
    }

    /// Lowers `op` applied to the registers of `args` from position `from`
    /// on.
    fn lower_op(&mut self, lay: &Layout, op: &Operation, args: &Vec<Register>, from: usize) -> (r: Result<(), LowerError>)
        requires
            old(self)@.wf(),
            from <= args@.len(),
        ensures
            match r {
                Ok(()) => lower_op_spec(lay@, old(self)@, *op, regs_view(args@.subrange(from as int, args@.len() as int)))
                    == Ok::<EmitState, LowerError>(final(self)@),
                Err(e) => lower_op_spec(lay@, old(self)@, *op, regs_view(args@.subrange(from as int, args@.len() as int)))
                    == Err::<EmitState, LowerError>(e),
            },
            r is Ok ==> final(self)@.wf() && final(self)@.blocks.len() >= old(self)@.blocks.len(),
        decreases op, 1nat,
    {
        let ghost av = regs_view(args@.subrange(from as int, args@.len() as int));
        proof {
            lemma_lower_op_unfold(lay@, old(self)@, *op, av);
        }
        match op.op_type {
            OpType::H | OpType::X | OpType::Y | OpType::Z => self.lower_gate(lay, op, args, from),
            OpType::Rz => self.lower_rz(lay, op, args, from),
            OpType::CX => self.lower_cx(lay, op, args, from),
            OpType::Measure => self.lower_measure(lay, op, args, from),
            OpType::Conditional => self.lower_conditional(lay, op, args, from),
            _ => Err(LowerError::UnsupportedOperation(op.op_type)),
        }
    }

    /// Lowers `cmds` in order.
    fn lower_cmds(&mut self, lay: &Layout, cmds: &Vec<Command>) -> (r: Result<(), LowerError>)
        requires
            old(self)@.wf(),
        ensures
            match r {
                Ok(()) => lower_cmds_spec(lay@, old(self)@, cmds@) == Ok::<EmitState, LowerError>(final(self)@),
                Err(e) => lower_cmds_spec(lay@, old(self)@, cmds@) == Err::<EmitState, LowerError>(e),
            },
            r is Ok ==> final(self)@.wf() && final(self)@.blocks.len() >= old(self)@.blocks.len(),
        decreases cmds@, 2nat,
    {
        let ghost st = old(self)@;
        let mut i: usize = 0;
        proof {
            assert(cmds@.subrange(0, cmds@.len() as int) =~= cmds@);
        }
        while i < cmds.len()
            invariant
                i <= cmds@.len(),
                st == old(self)@,
                self@.wf(),
                self@.blocks.len() >= st.blocks.len(),
                lower_cmds_spec(lay@, st, cmds@) == lower_cmds_spec(
                    lay@,
                    self@,
                    cmds@.subrange(i as int, cmds@.len() as int),
                ),
            decreases cmds@.len() - i,
        {
            let ghost sub = cmds@.subrange(i as int, cmds@.len() as int);
            let c = &cmds[i];
            proof {
                assert(sub[0] == cmds@[i as int]);
                assert(sub.subrange(1, sub.len() as int) =~= cmds@.subrange(i + 1, cmds@.len() as int));
                assert(c.args@.subrange(0, c.args@.len() as int) =~= c.args@);
            }
            proof {
                assert(lower_cmds_spec(lay@, self@, sub) == match lower_op_spec(lay@, self@, c.op, regs_view(c.args@)) {
                    Err(e) => Err(e),
                    Ok(st1) => lower_cmds_spec(lay@, st1, sub.subrange(1, sub.len() as int)),
                });
            }
            let ghost before = self@;
            let res = self.lower_op(lay, &c.op, &c.args, 0);
            match res {
                Err(e) => {
                    proof {
                        assert(lower_op_spec(lay@, before, c.op, regs_view(c.args@)) == Err::<EmitState, LowerError>(e));
                        assert(lower_cmds_spec(lay@, before, sub) == Err::<EmitState, LowerError>(e));
                        assert(lower_cmds_spec(lay@, st, cmds@) == Err::<EmitState, LowerError>(e));
                        assert(lower_cmds_spec(lay@, old(self)@, cmds@) == Err::<EmitState, LowerError>(e));
                    }
                    return Err(e);
                },
                Ok(()) => {},
            }
            i = i + 1;
        }
        Ok(())
    }
}

/// Every register of `qs` has a first index.
pub open spec fn indexed(qs: Seq<(Seq<char>, Seq<i64>)>) -> bool {
    forall|i: int| 0 <= i < qs.len() ==> #[trigger] qs[i].1.len() > 0
}

/// The layout of a circuit: its declared qubits and the register table of
/// its bits.
pub open spec fn circuit_layout(circ: Circuit) -> LayoutModel {
    LayoutModel { qubits: regs_view(circ.qubits@), registers: register_table(regs_view(circ.bits@)) }
}

/// The instructions that open a function: the allocation of every qubit, in
/// order, then of every result array.
pub open spec fn prologue(lay: LayoutModel) -> Seq<Instr> {
    Seq::new(lay.qubits.len(), |i: int| Instr::AllocateQubit { qubit: i as usize }) + Seq::new(
        lay.registers.len(),
        |k: int| Instr::AllocateResultArray { register: k as usize, len: lay.registers[k].1 },
    )
}

/// The instructions that close a function: the release of every qubit, in
/// order, then the return of the output array.
pub open spec fn epilogue(n_qubits: nat) -> Seq<Instr> {
    Seq::new(n_qubits, |i: int| Instr::ReleaseQubit { qubit: i as usize }) + seq![Instr::ReturnOutput]
}

/// The state in which the commands of a circuit start to be lowered.
pub open spec fn entry_state(lay: LayoutModel) -> EmitState {
    EmitState {
        blocks: seq![(BlockKind::Entry, prologue(lay))],
        current: 0,
        written: Seq::empty(),
        measurements: 0,
    }
}

/// The blocks of the function that a circuit lowers to, or the first error.
pub open spec fn lower_circuit_spec(circ: Circuit) -> Result<Seq<(BlockKind, Seq<Instr>)>, LowerError> {
    if !indexed(regs_view(circ.qubits@)) {
        Err(LowerError::EmptyIndex)
    } else {
        match register_table_error(regs_view(circ.bits@)) {
            Some(e) => Err(e),
            None => {
                let lay = circuit_layout(circ);
                match lower_cmds_spec(lay, entry_state(lay), circ.commands@) {
                    Err(e) => Err(e),
                    Ok(st) => Ok(append(st, epilogue(lay.qubits.len())).blocks),
                }
            },
        }
    }
}

/// Lowers a circuit into the basic blocks of a function body; the first
/// block is the entry.
pub fn lower_circuit(circ: &Circuit) -> (r: Result<Vec<Block>, LowerError>)
    ensures
        match r {
            Ok(bs) => lower_circuit_spec(*circ) == Ok::<Seq<(BlockKind, Seq<Instr>)>, LowerError>(blocks_view(bs@)),
            Err(e) => lower_circuit_spec(*circ) == Err::<Seq<(BlockKind, Seq<Instr>)>, LowerError>(e),
        },
{
    let mut i: usize = 0;
    while i < circ.qubits.len()
        invariant
            i <= circ.qubits@.len(),
            forall|j: int| 0 <= j < i ==> #[trigger] circ.qubits@[j].1@.len() > 0,
        decreases circ.qubits.len() - i,
    {
        if circ.qubits[i].1.len() == 0 {
            proof {
                assert(regs_view(circ.qubits@)[i as int].1.len() == 0);
            }
            return Err(LowerError::EmptyIndex);
        }
        i = i + 1;
    }
    proof {
        assert forall|j: int| 0 <= j < regs_view(circ.qubits@).len() implies #[trigger] regs_view(circ.qubits@)[j].1.len()
            > 0 by {
            assert(circ.qubits@[j].1@.len() > 0);
        }
    }
    let registers = match classical_registers(&circ.bits) {
        Err(e) => {
            return Err(e);
        },
        Ok(regs) => regs,
    };
    let qubits = duplicate_registers(circ.qubits.as_slice());
    let lay = Layout { qubits, registers };
    let ghost lm = circuit_layout(*circ);
    proof {
        assert(lay@.qubits == lm.qubits);
        assert(lay@.registers == lm.registers);
    }
    let mut entry: Vec<Instr> = Vec::new();
    let nq = lay.qubits.len();
    let mut q: usize = 0;
    while q < nq
        invariant
            q <= nq,
            nq == lm.qubits.len(),
            entry@ =~= Seq::new(q as nat, |i: int| Instr::AllocateQubit { qubit: i as usize }),
        decreases nq - q,
    {
        entry.push(Instr::AllocateQubit { qubit: q });
        q = q + 1;
    }
    let nr = lay.registers.len();
    let mut k: usize = 0;
    while k < nr
        invariant
            k <= nr,
            nq == lm.qubits.len(),
            nr == lm.registers.len(),
            lay@ == lm,
            entry@ =~= Seq::new(nq as nat, |i: int| Instr::AllocateQubit { qubit: i as usize }) + Seq::new(
                k as nat,
                |j: int| Instr::AllocateResultArray { register: j as usize, len: lm.registers[j].1 },
            ),
        decreases nr - k,
    {
        proof {
            assert(lay.registers@[k as int]@ == lm.registers[k as int]);
        }
        entry.push(Instr::AllocateResultArray { register: k, len: lay.registers[k].size });
        k = k + 1;
    }
    let mut blocks: Vec<Block> = Vec::new();
    blocks.push(Block { kind: BlockKind::Entry, instrs: entry });
    let mut em = Emitter { blocks, current: 0, written: Vec::new(), measurements: 0 };
    proof {
        assert(em@.blocks =~= entry_state(lm).blocks);
        assert(em@.written =~= entry_state(lm).written);
        assert(em@ == entry_state(lm));
    }
    match em.lower_cmds(&lay, &circ.commands) {
        Err(e) => {
            return Err(e);
        },
        Ok(()) => {},
    }
    let mut exit: Vec<Instr> = Vec::new();
    let mut q: usize = 0;
    while q < nq
        invariant
            q <= nq,
            exit@ =~= Seq::new(q as nat, |i: int| Instr::ReleaseQubit { qubit: i as usize }),
        decreases nq - q,
    {
        exit.push(Instr::ReleaseQubit { qubit: q });
        q = q + 1;
    }
    exit.push(Instr::ReturnOutput);
    proof {
        assert(exit@ =~= epilogue(nq as nat));
    }
    em.emit(exit);
    Ok(em.blocks)
}

/// `b` is `cond` with its operation wrapped in a circuit box: a box with the
/// nil identifier around an unnamed circuit of zero phase, over the qubits
/// `args` and no bits, whose single command applies the operation to `args`.
pub open spec fn boxes(b: Conditional, cond: Conditional, args: Seq<(Seq<char>, Seq<i64>)>, opgroup: Option<String>) -> bool {
    &&& b.width == cond.width
    &&& b.value == cond.value
    &&& (*b.op).op_type == OpType::CircBox
    &&& (*b.op).n_qb is None
    &&& (*b.op).params is None
    &&& (*b.op).signature is None
    &&& (*b.op).conditional is None
    &&& (*b.op).op_box matches Some(OpBox::CircBox { id, circuit }) && {
        &&& id.0 == 0
        &&& circuit.name is None
        &&& circuit.phase@ == seq!['0']
        &&& circuit.commands@.len() == 1
        &&& circuit.commands@[0].op == *cond.op
        &&& regs_view(circuit.commands@[0].args@) == args
        &&& circuit.commands@[0].opgroup == opgroup
        &&& regs_view(circuit.qubits@) == args
        &&& circuit.bits@.len() == 0
        &&& circuit.implicit_permutation@.len() == 0
    }
}

/// The conditional of a command whose registers after the condition bit are
/// `args`, with its operation wrapped in a circuit box unless it is one
/// already.
pub fn box_conditional(cond: Conditional, args: &Vec<Register>, opgroup: Option<String>) -> (r: Conditional)
    ensures
        (*cond.op).op_box matches Some(OpBox::CircBox { .. }) ==> r == cond,
        !((*cond.op).op_box matches Some(OpBox::CircBox { .. })) ==> boxes(r, cond, regs_view(args@), opgroup),
{
    let is_box = match &cond.op.op_box {
        Some(OpBox::CircBox { .. }) => true,
        _ => false,
    };
    if is_box {
        return cond;
    }
    let ghost inner_op = *cond.op;
    let Conditional { op, width, value } = cond;
    let command = Command { op: *op, args: duplicate_registers(args.as_slice()), opgroup };
    let mut commands: Vec<Command> = Vec::new();
    commands.push(command);
    let mut phase = String::new();
    phase.append("0");
    proof {
        reveal_strlit("0");
    }
    let circuit = Circuit {
        name: None,
        phase,
        commands,
        qubits: duplicate_registers(args.as_slice()),
        bits: Vec::new(),
        implicit_permutation: Vec::new(),
    };
    let mut boxed = Operation::bare(OpType::CircBox);
    boxed.op_box = Some(OpBox::CircBox { id: BoxID::nil(), circuit });
    proof {
        assert(phase@ =~= seq!['0']);
    }
    Conditional { op: Box::new(boxed), width, value }
}

} // verus!
