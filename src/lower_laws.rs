//! What lowering guarantees: it only extends the function body it starts
//! from, straight-line commands lower to one intrinsic call each, in order,
//! and the shapes of controlled gates, measurements and conditions.
use vstd::prelude::*;

use crate::circuit::{regs_view, Circuit, Command, Conditional, OpBox, OpType, Operation};
use crate::ir::{intrinsic_call, intrinsic_calls, lemma_intrinsic_calls_append, BlockKind, Handle, Instr};
use crate::lower::{boxes, EmitState, LayoutModel, LowerError, append, bit_slot, circuit_layout, condition_handle, condition_value, conditional_spec, cx_spec, entry_state, epilogue, gate_of, gate_spec, last_write, lemma_lower_op_unfold, lower_circuit_spec, lower_cmds_spec, lower_op_spec, measure_instrs, measure_spec, move_to, open_branch, previous_handle, prologue, qubit_index, rz_spec};

verus! {

/// `fin` only extends `st`: it adds blocks, appends to the block `st` fills
/// and leaves every other existing block as it was; the block it fills is
/// that one or a new one.
pub open spec fn extends(st: EmitState, fin: EmitState) -> bool {
    &&& fin.wf()
    &&& fin.blocks.len() >= st.blocks.len()
    &&& fin.current == st.current || fin.current >= st.blocks.len()
    &&& forall|b: int| 0 <= b < st.blocks.len() && b != st.current ==> #[trigger] fin.blocks[b] == st.blocks[b]
    &&& fin.blocks[st.current as int].0 == st.blocks[st.current as int].0
    &&& fin.blocks[st.current as int].1.len() >= st.current_instrs().len()
    &&& fin.blocks[st.current as int].1.subrange(0, st.current_instrs().len() as int) == st.current_instrs()
}

proof fn lemma_extends_trans(a: EmitState, b: EmitState, c: EmitState)
    requires
        a.wf(),
        extends(a, b),
        extends(b, c),
    ensures
        extends(a, c),
{
    let la = a.current_instrs().len() as int;
    if b.current == a.current {
        let lb = b.current_instrs().len() as int;
        assert(c.blocks[a.current as int].1.subrange(0, la) =~= c.blocks[a.current as int].1.subrange(0, lb).subrange(0, la));
    } else {
        assert(c.blocks[a.current as int] == b.blocks[a.current as int]);
    }
    assert forall|x: int| 0 <= x < a.blocks.len() && x != a.current implies #[trigger] c.blocks[x] == a.blocks[x] by {
        assert(b.blocks[x] == a.blocks[x]);
        assert(c.blocks[x] == b.blocks[x]);
    }
}

proof fn lemma_append_extends(st: EmitState, s: Seq<Instr>)
    requires
        st.wf(),
    ensures
        extends(st, append(st, s)),
        append(st, s).blocks.len() == st.blocks.len(),
        append(st, s).current == st.current,
        append(st, s).current_instrs() == st.current_instrs() + s,
{
    let fin = append(st, s);
    assert(fin.blocks[st.current as int].1.subrange(0, st.current_instrs().len() as int) =~= st.current_instrs());
}

/// Lowering an operation only extends the state it starts from.
pub proof fn lemma_op_extends(lay: LayoutModel, st: EmitState, op: Operation, args: Seq<(Seq<char>, Seq<i64>)>)
    requires
        st.wf(),
        lower_op_spec(lay, st, op, args) is Ok,
    ensures
        extends(st, lower_op_spec(lay, st, op, args)->Ok_0),
    decreases op, 1nat,
{
    lemma_lower_op_unfold(lay, st, op, args);
    let fin = lower_op_spec(lay, st, op, args)->Ok_0;
    match op.op_type {
        OpType::H | OpType::X | OpType::Y | OpType::Z => {
            reveal(gate_spec);
            lemma_append_extends(st, seq![Instr::Gate { gate: gate_of(op.op_type)->0, qubit: qubit_index(lay.qubits, args[0])->0 }]);
        },
        OpType::Rz => {
            reveal(rz_spec);
            lemma_append_extends(st, seq![Instr::RotateZ { angle: op.params->0@[0], qubit: qubit_index(lay.qubits, args[0])->0 }]);
        },
        OpType::CX => {
            reveal(cx_spec);
            let c = qubit_index(lay.qubits, args[0])->0;
            let q = qubit_index(lay.qubits, args[1])->0;
            lemma_append_extends(
                st,
                seq![
                    Instr::CreateControlWrapper { control: c },
                    Instr::ControlledX { control: c, target: q },
                    Instr::ReleaseControlWrapper { control: c },
                ],
            );
        },
        OpType::Measure => {
            reveal(measure_spec);
            let q = qubit_index(lay.qubits, args[0])->0;
            let (reg, off) = bit_slot(lay.registers, args[1])->0;
            let k = st.measurements as usize;
            lemma_append_extends(st, measure_instrs(q, reg, off, k, previous_handle(st.written, reg, off)));
        },
        OpType::Conditional => {
            lemma_conditional_extends(lay, st, op, args);
        },
        _ => {},
    }
}

proof fn lemma_conditional_extends(lay: LayoutModel, st: EmitState, op: Operation, args: Seq<(Seq<char>, Seq<i64>)>)
    requires
        st.wf(),
        op.op_type == OpType::Conditional,
        conditional_spec(lay, st, op, args) is Ok,
    ensures
        extends(st, conditional_spec(lay, st, op, args)->Ok_0),
    decreases op, 0nat,
{
    let cond = op.conditional->0;
    let (reg, off) = bit_slot(lay.registers, args[0])->0;
    let n = st.blocks.len();
    let st1 = open_branch(st, reg, off, cond.value);
    let branch = Instr::BranchIfEqual {
        lhs: condition_handle(st.written, reg, off),
        rhs: condition_value(cond.value),
        then_block: n as usize,
        else_block: (n + 1) as usize,
    };
    lemma_append_extends(st, seq![branch]);
    let inner = match (*cond.op).op_box {
        Some(OpBox::CircBox { circuit, .. }) => lower_cmds_spec(lay, st1, circuit.commands@),
        _ => lower_op_spec(lay, st1, *cond.op, args.drop_first()),
    };
    match (*cond.op).op_box {
        Some(OpBox::CircBox { circuit, .. }) => {
            lemma_cmds_extends(lay, st1, circuit.commands@);
        },
        _ => {
            lemma_op_extends(lay, st1, *cond.op, args.drop_first());
        },
    }
    let st2 = inner->Ok_0;
    let jump = seq![Instr::Branch { target: (n + 2) as usize }];
    let a = append(st2, jump);
    lemma_append_extends(st2, jump);
    let b = move_to(a, n + 1);
    let c = append(b, jump);
    lemma_append_extends(b, jump);
    let fin = move_to(c, n + 2);
    assert(fin == conditional_spec(lay, st, op, args)->Ok_0);
    assert forall|x: int| 0 <= x < st.blocks.len() && x != st.current implies #[trigger] fin.blocks[x] == st.blocks[x] by {
        assert(st1.blocks[x] == st.blocks[x]);
        assert(st2.blocks[x] == st1.blocks[x]);
    }
    assert(st2.blocks[st.current as int] == st1.blocks[st.current as int]);
    assert(st1.blocks[st.current as int].1 == st.current_instrs().push(branch));
    assert(fin.blocks[st.current as int].1.subrange(0, st.current_instrs().len() as int) =~= st.current_instrs());
}

/// Lowering a sequence of commands only extends the state it starts from.
pub proof fn lemma_cmds_extends(lay: LayoutModel, st: EmitState, cmds: Seq<Command>)
    requires
        st.wf(),
        lower_cmds_spec(lay, st, cmds) is Ok,
    ensures
        extends(st, lower_cmds_spec(lay, st, cmds)->Ok_0),
    decreases cmds, 2nat,
{
    if cmds.len() == 0 {
        assert(st.blocks[st.current as int].1.subrange(0, st.current_instrs().len() as int) =~= st.current_instrs());
    } else {
        let st1 = lower_op_spec(lay, st, cmds[0].op, regs_view(cmds[0].args@))->Ok_0;
        lemma_op_extends(lay, st, cmds[0].op, regs_view(cmds[0].args@));
        lemma_cmds_extends(lay, st1, cmds.subrange(1, cmds.len() as int));
        lemma_extends_trans(st, st1, lower_cmds_spec(lay, st, cmds)->Ok_0);
    }
}

/// The operation kinds that lower to straight-line code.
pub open spec fn is_flat(t: OpType) -> bool {
    t == OpType::H || t == OpType::X || t == OpType::Y || t == OpType::Z || t == OpType::CX || t == OpType::Rz
        || t == OpType::Measure
}

/// The qubit slots that a straight-line operation passes to its intrinsic:
/// control and target for a controlled X, else its first operand.
pub open spec fn op_qubits(lay: LayoutModel, op: Operation, args: Seq<(Seq<char>, Seq<i64>)>) -> Seq<usize> {
    if op.op_type == OpType::CX {
        seq![qubit_index(lay.qubits, args[0])->0, qubit_index(lay.qubits, args[1])->0]
    } else {
        seq![qubit_index(lay.qubits, args[0])->0]
    }
}

/// The intrinsic call that command `c` lowers to: its kind and qubit slots.
pub open spec fn command_call(lay: LayoutModel, c: Command) -> (OpType, Seq<usize>) {
    (c.op.op_type, op_qubits(lay, c.op, regs_view(c.args@)))
}

/// The instructions appended to the block that `st` fills, in `fin`.
pub open spec fn appended(st: EmitState, fin: EmitState) -> Seq<Instr> {
    fin.current_instrs().subrange(st.current_instrs().len() as int, fin.current_instrs().len() as int)
}

/// `fin` appends to the block `st` fills and changes no other block; the
/// appended instructions make the intrinsic calls `calls`, in order.
pub open spec fn appends_calls(st: EmitState, fin: EmitState, calls: Seq<(OpType, Seq<usize>)>) -> bool {
    &&& fin.current == st.current
    &&& fin.blocks.len() == st.blocks.len()
    &&& forall|b: int| 0 <= b < st.blocks.len() && b != st.current ==> #[trigger] fin.blocks[b] == st.blocks[b]
    &&& fin.blocks[st.current as int].0 == st.blocks[st.current as int].0
    &&& fin.current_instrs().len() >= st.current_instrs().len()
    &&& fin.current_instrs().subrange(0, st.current_instrs().len() as int) == st.current_instrs()
    &&& intrinsic_calls(appended(st, fin)) == calls
}

proof fn lemma_append_calls(st: EmitState, s: Seq<Instr>, t: (OpType, Seq<usize>))
    requires
        st.wf(),
        intrinsic_calls(s) == seq![t],
    ensures
        appends_calls(st, append(st, s), seq![t]),
{
    let fin = append(st, s);
    let l = st.current_instrs().len() as int;
    assert(fin.current_instrs().subrange(0, l) =~= st.current_instrs());
    assert(fin.current_instrs().subrange(l, fin.current_instrs().len() as int) =~= s);
}

proof fn lemma_intrinsic_calls_push(s: Seq<Instr>, i: Instr)
    ensures
        intrinsic_calls(s.push(i)) == match intrinsic_call(i) {
            Some(k) => intrinsic_calls(s).push(k),
            None => intrinsic_calls(s),
        },
{
    assert(s.push(i).drop_last() =~= s);
}

proof fn lemma_intrinsic_calls_empty()
    ensures
        intrinsic_calls(Seq::<Instr>::empty()) == Seq::<(OpType, Seq<usize>)>::empty(),
{
}

/// A command of a straight-line kind lowers to code that calls exactly one
/// intrinsic, that of its kind on its qubits, appended to the block being
/// filled.
pub proof fn lemma_flat_op_one_call(lay: LayoutModel, st: EmitState, op: Operation, args: Seq<(Seq<char>, Seq<i64>)>)
    requires
        st.wf(),
        is_flat(op.op_type),
        lower_op_spec(lay, st, op, args) is Ok,
    ensures
        appends_calls(st, lower_op_spec(lay, st, op, args)->Ok_0, seq![(op.op_type, op_qubits(lay, op, args))]),
{
    lemma_lower_op_unfold(lay, st, op, args);
    lemma_intrinsic_calls_empty();
    let e = Seq::<Instr>::empty();
    match op.op_type {
        OpType::H | OpType::X | OpType::Y | OpType::Z => {
            reveal(gate_spec);
            let i = Instr::Gate { gate: gate_of(op.op_type)->0, qubit: qubit_index(lay.qubits, args[0])->0 };
            lemma_intrinsic_calls_push(e, i);
            assert(seq![i] =~= e.push(i));
            assert(intrinsic_calls(seq![i]) =~= seq![(op.op_type, op_qubits(lay, op, args))]);
            lemma_append_calls(st, seq![i], (op.op_type, op_qubits(lay, op, args)));
        },
        OpType::Rz => {
            reveal(rz_spec);
            let i = Instr::RotateZ { angle: op.params->0@[0], qubit: qubit_index(lay.qubits, args[0])->0 };
            lemma_intrinsic_calls_push(e, i);
            assert(seq![i] =~= e.push(i));
            assert(intrinsic_calls(seq![i]) =~= seq![(op.op_type, op_qubits(lay, op, args))]);
            lemma_append_calls(st, seq![i], (op.op_type, op_qubits(lay, op, args)));
        },
        OpType::CX => {
            reveal(cx_spec);
            let c = qubit_index(lay.qubits, args[0])->0;
            let q = qubit_index(lay.qubits, args[1])->0;
            let i0 = Instr::CreateControlWrapper { control: c };
            let i1 = Instr::ControlledX { control: c, target: q };
            let i2 = Instr::ReleaseControlWrapper { control: c };
            let s = seq![i0, i1, i2];
            assert(s =~= e.push(i0).push(i1).push(i2));
            lemma_intrinsic_calls_push(e, i0);
            lemma_intrinsic_calls_push(e.push(i0), i1);
            lemma_intrinsic_calls_push(e.push(i0).push(i1), i2);
            assert(intrinsic_calls(s) =~= seq![(op.op_type, op_qubits(lay, op, args))]);
            lemma_append_calls(st, s, (op.op_type, op_qubits(lay, op, args)));
        },
        _ => {
            reveal(measure_spec);
            let q = qubit_index(lay.qubits, args[0])->0;
            let (reg, off) = bit_slot(lay.registers, args[1])->0;
            let k = st.measurements as usize;
            let s = measure_instrs(q, reg, off, k, previous_handle(st.written, reg, off));
            assert(s =~= e.push(s[0]).push(s[1]).push(s[2]).push(s[3]));
            lemma_intrinsic_calls_push(e, s[0]);
            lemma_intrinsic_calls_push(e.push(s[0]), s[1]);
            lemma_intrinsic_calls_push(e.push(s[0]).push(s[1]), s[2]);
            lemma_intrinsic_calls_push(e.push(s[0]).push(s[1]).push(s[2]), s[3]);
            assert(intrinsic_calls(s) =~= seq![(op.op_type, op_qubits(lay, op, args))]);
            lemma_append_calls(st, s, (op.op_type, op_qubits(lay, op, args)));
            let fin = lower_op_spec(lay, st, op, args)->Ok_0;
            assert(fin.blocks == append(st, s).blocks);
        },
    }
}

/// A circuit body of straight-line commands lowers to exactly one intrinsic
/// call per command, in command order, each of the command's kind on the
/// command's qubits, appended to the block being filled.
pub proof fn lemma_flat_commands_one_call_each(lay: LayoutModel, st: EmitState, cmds: Seq<Command>)
    requires
        st.wf(),
        forall|i: int| 0 <= i < cmds.len() ==> is_flat(#[trigger] cmds[i].op.op_type),
        lower_cmds_spec(lay, st, cmds) is Ok,
    ensures
        appends_calls(st, lower_cmds_spec(lay, st, cmds)->Ok_0, cmds.map_values(|c: Command| command_call(lay, c))),
    decreases cmds.len(),
{
    let fin = lower_cmds_spec(lay, st, cmds)->Ok_0;
    let l = st.current_instrs().len() as int;
    if cmds.len() == 0 {
        assert(fin.current_instrs().subrange(0, l) =~= st.current_instrs());
        assert(fin.current_instrs().subrange(l, l) =~= Seq::<Instr>::empty());
        assert(cmds.map_values(|c: Command| command_call(lay, c)) =~= Seq::<(OpType, Seq<usize>)>::empty());
    } else {
        let rest = cmds.subrange(1, cmds.len() as int);
        let st1 = lower_op_spec(lay, st, cmds[0].op, regs_view(cmds[0].args@))->Ok_0;
        assert(is_flat(cmds[0].op.op_type));
        lemma_flat_op_one_call(lay, st, cmds[0].op, regs_view(cmds[0].args@));
        assert forall|i: int| 0 <= i < rest.len() implies is_flat(#[trigger] rest[i].op.op_type) by {
            assert(rest[i] == cmds[i + 1]);
        }
        lemma_flat_commands_one_call_each(lay, st1, rest);
        let l1 = st1.current_instrs().len() as int;
        let all = fin.current_instrs();
        assert(all.subrange(0, l1) =~= st1.current_instrs());
        assert(all.subrange(0, l) =~= st.current_instrs()) by {
            assert(all.subrange(0, l) =~= all.subrange(0, l1).subrange(0, l));
        }
        assert(all.subrange(l, all.len() as int) =~= all.subrange(l, l1) + all.subrange(l1, all.len() as int));
        assert(all.subrange(l, l1) =~= st1.current_instrs().subrange(l, l1));
        lemma_intrinsic_calls_append(all.subrange(l, l1), all.subrange(l1, all.len() as int));
        assert(cmds.map_values(|c: Command| command_call(lay, c)) =~= seq![command_call(lay, cmds[0])] + rest.map_values(
            |c: Command| command_call(lay, c),
        ));
        assert forall|b: int| 0 <= b < st.blocks.len() && b != st.current implies #[trigger] fin.blocks[b] == st.blocks[b] by {
            assert(st1.blocks[b] == st.blocks[b]);
        }
    }
}

/// A controlled X lowers to exactly one controlled call, between the
/// creation of the wrapper of its control and exactly one release of that
/// wrapper.
pub proof fn lemma_cx_pairs_call_with_release(
    lay: LayoutModel,
    st: EmitState,
    op: Operation,
    args: Seq<(Seq<char>, Seq<i64>)>,
)
    requires
        op.op_type == OpType::CX,
        lower_op_spec(lay, st, op, args) is Ok,
    ensures
        ({
            let c = qubit_index(lay.qubits, args[0])->0;
            let t = qubit_index(lay.qubits, args[1])->0;
            lower_op_spec(lay, st, op, args)->Ok_0 == append(
                st,
                seq![
                    Instr::CreateControlWrapper { control: c },
                    Instr::ControlledX { control: c, target: t },
                    Instr::ReleaseControlWrapper { control: c },
                ],
            )
        }),
{
    lemma_lower_op_unfold(lay, st, op, args);
    reveal(cx_spec);
}

/// A measurement into a bit lowers to the measurement call, then one
/// decrement of the handle the bit held before, one increment of the new
/// handle and one store of it, in that order; the bit then holds the new
/// handle.
pub proof fn lemma_measure_replaces_handle(lay: LayoutModel, st: EmitState, op: Operation, args: Seq<(Seq<char>, Seq<i64>)>)
    requires
        op.op_type == OpType::Measure,
        lower_op_spec(lay, st, op, args) is Ok,
    ensures
        ({
            let q = qubit_index(lay.qubits, args[0])->0;
            let (reg, off) = bit_slot(lay.registers, args[1])->0;
            let k = st.measurements as usize;
            let fin = lower_op_spec(lay, st, op, args)->Ok_0;
            &&& fin.blocks == append(
                st,
                seq![
                    Instr::Measure { qubit: q, result: k },
                    Instr::UpdateResultRef { handle: previous_handle(st.written, reg, off), delta: -1i32 },
                    Instr::UpdateResultRef { handle: Handle::Measured(k), delta: 1i32 },
                    Instr::StoreResult { register: reg, offset: off, result: k },
                ],
            ).blocks
            &&& fin.current == st.current
            &&& last_write(fin.written, reg, off) == Some(k)
            &&& fin.measurements == st.measurements + 1
        }),
{
    lemma_lower_op_unfold(lay, st, op, args);
    reveal(measure_spec);
    let (reg, off) = bit_slot(lay.registers, args[1])->0;
    let fin = lower_op_spec(lay, st, op, args)->Ok_0;
    assert(fin.written.drop_last() =~= st.written);
}

/// A one-bit condition on a bit that no measurement has written compares the
/// canonical zero handle with the value's canonical handle, at the end of
/// the block being filled.
pub proof fn lemma_unwritten_condition_reads_zero(
    lay: LayoutModel,
    st: EmitState,
    op: Operation,
    args: Seq<(Seq<char>, Seq<i64>)>,
)
    requires
        st.wf(),
        op.op_type == OpType::Conditional,
        lower_op_spec(lay, st, op, args) is Ok,
        bit_slot(lay.registers, args[0]) matches Some((reg, off)) && last_write(st.written, reg, off) is None,
    ensures
        ({
            let n = st.blocks.len() as int;
            let fin = lower_op_spec(lay, st, op, args)->Ok_0;
            fin.blocks[st.current as int] == (
                st.blocks[st.current as int].0,
                st.current_instrs().push(
                    Instr::BranchIfEqual {
                        lhs: Handle::Zero,
                        rhs: condition_value(op.conditional->0.value),
                        then_block: n as usize,
                        else_block: (n + 1) as usize,
                    },
                ),
            )
        }),
{
    lemma_lower_op_unfold(lay, st, op, args);
    lemma_conditional_frame(lay, st, op, args);
}

proof fn lemma_conditional_frame(lay: LayoutModel, st: EmitState, op: Operation, args: Seq<(Seq<char>, Seq<i64>)>)
    requires
        st.wf(),
        op.op_type == OpType::Conditional,
        conditional_spec(lay, st, op, args) is Ok,
    ensures
        ({
            let cond = op.conditional->0;
            let (reg, off) = bit_slot(lay.registers, args[0])->0;
            let n = st.blocks.len() as int;
            let st1 = open_branch(st, reg, off, cond.value);
            let fin = conditional_spec(lay, st, op, args)->Ok_0;
            let jump = seq![Instr::Branch { target: (n + 2) as usize }];
            &&& fin.blocks[st.current as int] == st1.blocks[st.current as int]
            &&& fin.blocks[n + 1] == (BlockKind::Else, jump)
            &&& fin.blocks[n + 2] == (BlockKind::Continue, Seq::<Instr>::empty())
            &&& fin.current == n + 2
        }),
{
    let cond = op.conditional->0;
    let (reg, off) = bit_slot(lay.registers, args[0])->0;
    let n = st.blocks.len() as int;
    let st1 = open_branch(st, reg, off, cond.value);
    match (*cond.op).op_box {
        Some(OpBox::CircBox { circuit, .. }) => {
            lemma_cmds_extends(lay, st1, circuit.commands@);
        },
        _ => {
            lemma_op_extends(lay, st1, *cond.op, args.drop_first());
        },
    }
    let inner = match (*cond.op).op_box {
        Some(OpBox::CircBox { circuit, .. }) => lower_cmds_spec(lay, st1, circuit.commands@),
        _ => lower_op_spec(lay, st1, *cond.op, args.drop_first()),
    };
    let st2 = inner->Ok_0;
    assert(st2.blocks[st.current as int] == st1.blocks[st.current as int]);
    assert(st2.blocks[n + 1] == st1.blocks[n + 1]);
    assert(st2.blocks[n + 2] == st1.blocks[n + 2]);
}

/// A one-bit condition lowers to a `then`, an `else` and a `continue` block
/// after the existing ones: the `else` block holds only the jump to
/// `continue`, and filling resumes in the empty `continue` block. When the
/// conditioned code is straight-line, these are the only blocks added.
pub proof fn lemma_conditional_three_blocks(lay: LayoutModel, st: EmitState, op: Operation, args: Seq<(Seq<char>, Seq<i64>)>)
    requires
        st.wf(),
        op.op_type == OpType::Conditional,
        lower_op_spec(lay, st, op, args) is Ok,
    ensures
        ({
            let n = st.blocks.len() as int;
            let fin = lower_op_spec(lay, st, op, args)->Ok_0;
            let inner = *op.conditional->0.op;
            &&& fin.blocks[n].0 == BlockKind::Then
            &&& fin.blocks[n + 1] == (BlockKind::Else, seq![Instr::Branch { target: (n + 2) as usize }])
            &&& fin.blocks[n + 2] == (BlockKind::Continue, Seq::<Instr>::empty())
            &&& fin.current == n + 2
            &&& (match inner.op_box {
                Some(OpBox::CircBox { circuit, .. }) => forall|i: int|
                    0 <= i < circuit.commands@.len() ==> is_flat(#[trigger] circuit.commands@[i].op.op_type),
                _ => is_flat(inner.op_type),
            }) ==> fin.blocks.len() == n + 3
        }),
{
    lemma_lower_op_unfold(lay, st, op, args);
    lemma_conditional_frame(lay, st, op, args);
    let cond = op.conditional->0;
    let (reg, off) = bit_slot(lay.registers, args[0])->0;
    let n = st.blocks.len() as int;
    let st1 = open_branch(st, reg, off, cond.value);
    match (*cond.op).op_box {
        Some(OpBox::CircBox { circuit, .. }) => {
            lemma_cmds_extends(lay, st1, circuit.commands@);
            if forall|i: int| 0 <= i < circuit.commands@.len() ==> is_flat(#[trigger] circuit.commands@[i].op.op_type) {
                lemma_flat_commands_one_call_each(lay, st1, circuit.commands@);
            }
        },
        _ => {
            lemma_op_extends(lay, st1, *cond.op, args.drop_first());
            if is_flat((*cond.op).op_type) {
                lemma_flat_op_one_call(lay, st1, *cond.op, args.drop_first());
            }
        },
    }
}

/// Lowering a condition on an operation that is not a circuit box is
/// lowering the same condition on the box that wraps it.
pub proof fn lemma_bare_conditional_as_box(
    lay: LayoutModel,
    st: EmitState,
    op: Operation,
    args: Seq<(Seq<char>, Seq<i64>)>,
    boxed: Conditional,
    opgroup: Option<String>,
)
    requires
        op.op_type == OpType::Conditional,
        op.conditional is Some,
        !((*op.conditional->0.op).op_box matches Some(OpBox::CircBox { .. })),
        args.len() >= 1,
        boxes(boxed, op.conditional->0, args.drop_first(), opgroup),
    ensures
        lower_op_spec(lay, st, op, args) == lower_op_spec(
            lay,
            st,
            Operation {
                op_type: op.op_type,
                n_qb: op.n_qb,
                params: op.params,
                op_box: op.op_box,
                signature: op.signature,
                conditional: Some(boxed),
            },
            args,
        ),
{
    let op2 = Operation {
        op_type: op.op_type,
        n_qb: op.n_qb,
        params: op.params,
        op_box: op.op_box,
        signature: op.signature,
        conditional: Some(boxed),
    };
    lemma_lower_op_unfold(lay, st, op, args);
    lemma_lower_op_unfold(lay, st, op2, args);
    let cond = op.conditional->0;
    if cond.width == 1 && cond.value <= 1 && bit_slot(lay.registers, args[0]) is Some {
        let (reg, off) = bit_slot(lay.registers, args[0])->0;
        let st1 = open_branch(st, reg, off, cond.value);
        let circuit = (*boxed.op).op_box->0->CircBox_circuit;
        let cmds = circuit.commands@;
        assert(cmds.subrange(1, cmds.len() as int) =~= Seq::<Command>::empty());
        match lower_op_spec(lay, st1, *cond.op, args.drop_first()) {
            Ok(st2) => {
                assert(lower_cmds_spec(lay, st2, cmds.subrange(1, cmds.len() as int)) == Ok::<EmitState, LowerError>(st2));
            },
            Err(e) => {},
        }
    }
}

proof fn lemma_no_intrinsic_calls(s: Seq<Instr>)
    requires
        forall|i: int| 0 <= i < s.len() ==> intrinsic_call(#[trigger] s[i]) is None,
    ensures
        intrinsic_calls(s) == Seq::<(OpType, Seq<usize>)>::empty(),
    decreases s.len(),
{
    if s.len() > 0 {
        assert forall|i: int| 0 <= i < s.drop_last().len() implies intrinsic_call(#[trigger] s.drop_last()[i]) is None by {
            assert(s.drop_last()[i] == s[i]);
        }
        lemma_no_intrinsic_calls(s.drop_last());
        assert(intrinsic_call(s[s.len() - 1]) is None);
    }
}

/// A circuit of straight-line commands lowers to a single block whose
/// intrinsic calls are exactly one per command, in command order, each of
/// the command's kind on the command's qubits.
pub proof fn lemma_flat_circuit_one_call_per_command(circ: Circuit)
    requires
        forall|i: int| 0 <= i < circ.commands@.len() ==> is_flat(#[trigger] circ.commands@[i].op.op_type),
        lower_circuit_spec(circ) is Ok,
    ensures
        lower_circuit_spec(circ)->Ok_0.len() == 1,
        intrinsic_calls(lower_circuit_spec(circ)->Ok_0[0].1) == circ.commands@.map_values(
            |c: Command| command_call(circuit_layout(circ), c),
        ),
{
    let lay = circuit_layout(circ);
    let st = entry_state(lay);
    lemma_flat_commands_one_call_each(lay, st, circ.commands@);
    let fin = lower_cmds_spec(lay, st, circ.commands@)->Ok_0;
    let ep = epilogue(lay.qubits.len());
    lemma_append_extends(fin, ep);
    let pro = prologue(lay);
    let all = append(fin, ep).current_instrs();
    let mid = appended(st, fin);
    assert(fin.current_instrs() =~= pro + mid);
    assert(all =~= pro + mid + ep);
    assert forall|i: int| 0 <= i < pro.len() implies intrinsic_call(#[trigger] pro[i]) is None by {}
    assert forall|i: int| 0 <= i < ep.len() implies intrinsic_call(#[trigger] ep[i]) is None by {}
    lemma_no_intrinsic_calls(pro);
    lemma_no_intrinsic_calls(ep);
    lemma_intrinsic_calls_append(pro, mid);
    lemma_intrinsic_calls_append(pro + mid, ep);
    assert(Seq::<(OpType, Seq<usize>)>::empty() + intrinsic_calls(mid) =~= intrinsic_calls(mid));
    assert(intrinsic_calls(mid) + Seq::<(OpType, Seq<usize>)>::empty() =~= intrinsic_calls(mid));
}

} // verus!
