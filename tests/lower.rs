use tket_qir::circuit::{BoxID, Circuit, Command, Conditional, OpBox, OpType, Operation, Patch, Permutation, Register};
use tket_qir::ir::{Block, BlockKind, Gate, Handle, Instr};
use tket_qir::lower::{box_conditional, classical_registers, lower_circuit, qubit_slot, result_slot, ClassicalRegister, LowerError};

fn reg(name: &str, i: i64) -> Register {
    Register(name.to_string(), vec![i])
}

fn op(t: OpType) -> Operation {
    Operation::bare(t)
}

fn cmd(t: OpType, args: Vec<Register>) -> Command {
    Command { op: op(t), args, opgroup: None }
}

fn circuit(commands: Vec<Command>, n_qubits: i64, n_bits: i64) -> Circuit {
    Circuit {
        name: None,
        phase: "0.0".to_string(),
        commands,
        qubits: (0..n_qubits).map(|i| reg("q", i)).collect(),
        bits: (0..n_bits).map(|i| reg("c", i)).collect(),
        implicit_permutation: vec![],
    }
}

fn conditional(inner: Operation, width: u32, value: u32) -> Operation {
    let mut o = op(OpType::Conditional);
    o.conditional = Some(Conditional { op: Box::new(inner), width, value });
    o
}

fn entry(blocks: &[Block]) -> &Vec<Instr> {
    &blocks[0].instrs
}

fn is_call(i: &Instr) -> bool {
    matches!(i, Instr::Gate { .. } | Instr::RotateZ { .. } | Instr::ControlledX { .. } | Instr::Measure { .. })
}

#[test]
fn bell_circuit_lowers_to_expected_function() {
    let c = Circuit {
        name: None,
        phase: "0.0".to_string(),
        commands: vec![
            cmd(OpType::H, vec![reg("q", 0)]),
            cmd(OpType::CX, vec![reg("q", 0), reg("q", 1)]),
            cmd(OpType::Measure, vec![reg("q", 0), reg("c", 0)]),
            cmd(OpType::Measure, vec![reg("q", 1), reg("c", 1)]),
        ],
        qubits: vec![reg("q", 0), reg("q", 1)],
        bits: vec![reg("c", 0), reg("c", 1)],
        implicit_permutation: vec![
            Permutation(reg("q", 0), reg("q", 0)),
            Permutation(reg("q", 1), reg("q", 1)),
        ],
    };
    let blocks = lower_circuit(&c).unwrap();
    assert_eq!(blocks.len(), 1);
    assert_eq!(blocks[0].kind, BlockKind::Entry);
    let expected = vec![
        Instr::AllocateQubit { qubit: 0 },
        Instr::AllocateQubit { qubit: 1 },
        Instr::AllocateResultArray { register: 0, len: 2 },
        Instr::Gate { gate: Gate::H, qubit: 0 },
        Instr::CreateControlWrapper { control: 0 },
        Instr::ControlledX { control: 0, target: 1 },
        Instr::ReleaseControlWrapper { control: 0 },
        Instr::Measure { qubit: 0, result: 0 },
        Instr::UpdateResultRef { handle: Handle::Stored { register: 0, offset: 0 }, delta: -1 },
        Instr::UpdateResultRef { handle: Handle::Measured(0), delta: 1 },
        Instr::StoreResult { register: 0, offset: 0, result: 0 },
        Instr::Measure { qubit: 1, result: 1 },
        Instr::UpdateResultRef { handle: Handle::Stored { register: 0, offset: 1 }, delta: -1 },
        Instr::UpdateResultRef { handle: Handle::Measured(1), delta: 1 },
        Instr::StoreResult { register: 0, offset: 1, result: 1 },
        Instr::ReleaseQubit { qubit: 0 },
        Instr::ReleaseQubit { qubit: 1 },
        Instr::ReturnOutput,
    ];
    assert_eq!(blocks[0].instrs, expected);
}

#[test]
fn straight_line_circuit_has_one_call_per_command_in_order() {
    let mut rz = op(OpType::Rz);
    rz.params = Some(vec!["0.5".to_string()]);
    let c = circuit(
        vec![
            cmd(OpType::H, vec![reg("q", 0)]),
            cmd(OpType::X, vec![reg("q", 1)]),
            cmd(OpType::Y, vec![reg("q", 0)]),
            cmd(OpType::Z, vec![reg("q", 1)]),
            cmd(OpType::CX, vec![reg("q", 1), reg("q", 0)]),
            Command { op: rz, args: vec![reg("q", 0)], opgroup: None },
            cmd(OpType::Measure, vec![reg("q", 0), reg("c", 0)]),
        ],
        2,
        1,
    );
    let blocks = lower_circuit(&c).unwrap();
    assert_eq!(blocks.len(), 1);
    let calls: Vec<&Instr> = entry(&blocks).iter().filter(|i| is_call(i)).collect();
    assert_eq!(
        calls,
        vec![
            &Instr::Gate { gate: Gate::H, qubit: 0 },
            &Instr::Gate { gate: Gate::X, qubit: 1 },
            &Instr::Gate { gate: Gate::Y, qubit: 0 },
            &Instr::Gate { gate: Gate::Z, qubit: 1 },
            &Instr::ControlledX { control: 1, target: 0 },
            &Instr::RotateZ { angle: "0.5".to_string(), qubit: 0 },
            &Instr::Measure { qubit: 0, result: 0 },
        ]
    );
}

#[test]
fn controlled_x_releases_its_control_wrapper_once() {
    let c = circuit(vec![cmd(OpType::CX, vec![reg("q", 2), reg("q", 0)])], 3, 0);
    let blocks = lower_circuit(&c).unwrap();
    let body: Vec<Instr> = entry(&blocks)[3..6].to_vec();
    assert_eq!(
        body,
        vec![
            Instr::CreateControlWrapper { control: 2 },
            Instr::ControlledX { control: 2, target: 0 },
            Instr::ReleaseControlWrapper { control: 2 },
        ]
    );
    let releases = entry(&blocks).iter().filter(|i| matches!(i, Instr::ReleaseControlWrapper { .. })).count();
    assert_eq!(releases, 1);
}

#[test]
fn second_measurement_releases_the_first_handle() {
    let c = circuit(
        vec![
            cmd(OpType::Measure, vec![reg("q", 0), reg("c", 0)]),
            cmd(OpType::Measure, vec![reg("q", 0), reg("c", 0)]),
        ],
        1,
        1,
    );
    let blocks = lower_circuit(&c).unwrap();
    let body: Vec<Instr> = entry(&blocks)[2..10].to_vec();
    assert_eq!(
        body,
        vec![
            Instr::Measure { qubit: 0, result: 0 },
            Instr::UpdateResultRef { handle: Handle::Stored { register: 0, offset: 0 }, delta: -1 },
            Instr::UpdateResultRef { handle: Handle::Measured(0), delta: 1 },
            Instr::StoreResult { register: 0, offset: 0, result: 0 },
            Instr::Measure { qubit: 0, result: 1 },
            Instr::UpdateResultRef { handle: Handle::Measured(0), delta: -1 },
            Instr::UpdateResultRef { handle: Handle::Measured(1), delta: 1 },
            Instr::StoreResult { register: 0, offset: 0, result: 1 },
        ]
    );
}

#[test]
fn condition_on_unwritten_bit_compares_zero_with_one() {
    let c = circuit(
        vec![Command { op: conditional(op(OpType::X), 1, 1), args: vec![reg("c", 0), reg("q", 0)], opgroup: None }],
        1,
        1,
    );
    let blocks = lower_circuit(&c).unwrap();
    assert_eq!(
        entry(&blocks)[2],
        Instr::BranchIfEqual { lhs: Handle::Zero, rhs: Handle::One, then_block: 1, else_block: 2 }
    );
}

#[test]
fn condition_on_measured_bit_reads_the_measurement() {
    let c = circuit(
        vec![
            cmd(OpType::Measure, vec![reg("q", 0), reg("c", 0)]),
            Command { op: conditional(op(OpType::X), 1, 0), args: vec![reg("c", 0), reg("q", 0)], opgroup: None },
        ],
        1,
        1,
    );
    let blocks = lower_circuit(&c).unwrap();
    assert_eq!(
        entry(&blocks)[6],
        Instr::BranchIfEqual { lhs: Handle::Measured(0), rhs: Handle::Zero, then_block: 1, else_block: 2 }
    );
}

#[test]
fn conditional_adds_then_else_continue_blocks() {
    let inner = circuit(
        vec![cmd(OpType::H, vec![reg("q", 0)]), cmd(OpType::X, vec![reg("q", 0)]), cmd(OpType::Z, vec![reg("q", 0)])],
        1,
        0,
    );
    let mut boxed = op(OpType::CircBox);
    boxed.op_box = Some(OpBox::CircBox { id: BoxID(7), circuit: inner });
    let c = circuit(
        vec![Command { op: conditional(boxed, 1, 1), args: vec![reg("c", 0), reg("q", 0)], opgroup: None }],
        1,
        1,
    );
    let blocks = lower_circuit(&c).unwrap();
    assert_eq!(blocks.len(), 4);
    assert_eq!(blocks[1].kind, BlockKind::Then);
    assert_eq!(
        blocks[1].instrs,
        vec![
            Instr::Gate { gate: Gate::H, qubit: 0 },
            Instr::Gate { gate: Gate::X, qubit: 0 },
            Instr::Gate { gate: Gate::Z, qubit: 0 },
            Instr::Branch { target: 3 },
        ]
    );
    assert_eq!(blocks[2].kind, BlockKind::Else);
    assert_eq!(blocks[2].instrs, vec![Instr::Branch { target: 3 }]);
    assert_eq!(blocks[3].kind, BlockKind::Continue);
    assert_eq!(
        blocks[3].instrs,
        vec![Instr::ReleaseQubit { qubit: 0 }, Instr::ReturnOutput]
    );
}

#[test]
fn bare_conditional_is_wrapped_in_a_single_command_box() {
    let cond = Conditional { op: Box::new(op(OpType::X)), width: 1, value: 1 };
    let rest = vec![reg("q", 1)];
    let boxed = box_conditional(cond, &rest, Some("g".to_string()));
    assert_eq!(boxed.width, 1);
    assert_eq!(boxed.value, 1);
    assert_eq!(boxed.op.op_type, OpType::CircBox);
    match &boxed.op.op_box {
        Some(OpBox::CircBox { id, circuit }) => {
            assert_eq!(*id, BoxID(0));
            assert_eq!(circuit.name, None);
            assert_eq!(circuit.phase, "0");
            assert_eq!(circuit.commands.len(), 1);
            assert_eq!(circuit.commands[0].op.op_type, OpType::X);
            assert_eq!(circuit.commands[0].args, rest);
            assert_eq!(circuit.commands[0].opgroup, Some("g".to_string()));
            assert_eq!(circuit.qubits, rest);
            assert!(circuit.bits.is_empty());
            assert!(circuit.implicit_permutation.is_empty());
        }
        other => panic!("not a circuit box: {:?}", other),
    }
}

#[test]
fn bare_and_boxed_conditionals_lower_alike() {
    let bare = circuit(
        vec![Command { op: conditional(op(OpType::X), 1, 1), args: vec![reg("c", 0), reg("q", 1)], opgroup: None }],
        2,
        1,
    );
    let cond = Conditional { op: Box::new(op(OpType::X)), width: 1, value: 1 };
    let boxed_cond = box_conditional(cond, &vec![reg("q", 1)], None);
    let mut boxed_op = op(OpType::Conditional);
    boxed_op.conditional = Some(boxed_cond);
    let boxed = circuit(vec![Command { op: boxed_op, args: vec![reg("c", 0), reg("q", 1)], opgroup: None }], 2, 1);
    let a = lower_circuit(&bare).unwrap();
    let b = lower_circuit(&boxed).unwrap();
    assert_eq!(format!("{:?}", a), format!("{:?}", b));
    assert_eq!(a[1].instrs, vec![Instr::Gate { gate: Gate::X, qubit: 1 }, Instr::Branch { target: 3 }]);
}

#[test]
fn circuit_box_is_kept_as_is() {
    let mut boxed = op(OpType::CircBox);
    boxed.op_box = Some(OpBox::CircBox { id: BoxID(9), circuit: circuit(vec![], 1, 0) });
    let cond = Conditional { op: Box::new(boxed), width: 1, value: 0 };
    let r = box_conditional(cond, &vec![reg("q", 0)], None);
    match &r.op.op_box {
        Some(OpBox::CircBox { id, circuit }) => {
            assert_eq!(*id, BoxID(9));
            assert!(circuit.commands.is_empty());
        }
        other => panic!("not a circuit box: {:?}", other),
    }
}

#[test]
fn unsupported_operation_is_refused() {
    let c = circuit(vec![cmd(OpType::T, vec![reg("q", 0)])], 1, 0);
    assert_eq!(lower_circuit(&c).unwrap_err(), LowerError::UnsupportedOperation(OpType::T));
}

#[test]
fn wide_condition_is_refused() {
    let c = circuit(
        vec![Command { op: conditional(op(OpType::X), 2, 1), args: vec![reg("c", 0), reg("q", 0)], opgroup: None }],
        1,
        1,
    );
    assert_eq!(lower_circuit(&c).unwrap_err(), LowerError::UnsupportedCondition { width: 2, value: 1 });
}

#[test]
fn condition_value_above_one_is_refused() {
    let c = circuit(
        vec![Command { op: conditional(op(OpType::X), 1, 2), args: vec![reg("c", 0), reg("q", 0)], opgroup: None }],
        1,
        1,
    );
    assert_eq!(lower_circuit(&c).unwrap_err(), LowerError::UnsupportedCondition { width: 1, value: 2 });
}

#[test]
fn conditional_without_payload_is_refused() {
    let c = circuit(vec![cmd(OpType::Conditional, vec![reg("c", 0), reg("q", 0)])], 1, 1);
    assert_eq!(lower_circuit(&c).unwrap_err(), LowerError::MissingConditional);
}

#[test]
fn rotation_without_angle_is_refused() {
    let c = circuit(vec![cmd(OpType::Rz, vec![reg("q", 0)])], 1, 0);
    assert_eq!(lower_circuit(&c).unwrap_err(), LowerError::MissingParameter);
    let mut rz = op(OpType::Rz);
    rz.params = Some(vec![]);
    let c = circuit(vec![Command { op: rz, args: vec![reg("q", 0)], opgroup: None }], 1, 0);
    assert_eq!(lower_circuit(&c).unwrap_err(), LowerError::MissingParameter);
}

#[test]
fn missing_operand_is_refused() {
    let c = circuit(vec![cmd(OpType::CX, vec![reg("q", 0)])], 1, 0);
    assert_eq!(lower_circuit(&c).unwrap_err(), LowerError::MissingArgument);
    let c = circuit(vec![cmd(OpType::H, vec![])], 1, 0);
    assert_eq!(lower_circuit(&c).unwrap_err(), LowerError::MissingArgument);
}

#[test]
fn undeclared_qubit_is_refused() {
    let c = circuit(vec![cmd(OpType::H, vec![reg("q", 5)])], 1, 0);
    assert_eq!(lower_circuit(&c).unwrap_err(), LowerError::UnknownQubit);
}

#[test]
fn undeclared_bit_is_refused() {
    let c = circuit(vec![cmd(OpType::Measure, vec![reg("q", 0), reg("d", 0)])], 1, 1);
    assert_eq!(lower_circuit(&c).unwrap_err(), LowerError::UnknownBit);
    let c = circuit(vec![cmd(OpType::Measure, vec![reg("q", 0), reg("c", 3)])], 1, 1);
    assert_eq!(lower_circuit(&c).unwrap_err(), LowerError::UnknownBit);
}

#[test]
fn qubit_without_index_is_refused() {
    let mut c = circuit(vec![], 1, 0);
    c.qubits.push(Register("q".to_string(), vec![]));
    assert_eq!(lower_circuit(&c).unwrap_err(), LowerError::EmptyIndex);
}

#[test]
fn bit_with_negative_index_is_refused() {
    let mut c = circuit(vec![], 1, 0);
    c.bits.push(reg("c", -1));
    assert_eq!(lower_circuit(&c).unwrap_err(), LowerError::NegativeIndex);
}

#[test]
fn register_table_sizes_by_largest_index_in_first_appearance_order() {
    let bits = vec![reg("c", 1), reg("d", 0), reg("c", 4), reg("c", 2)];
    let regs = classical_registers(&bits).unwrap();
    let view: Vec<(String, u64)> = regs.iter().map(|r: &ClassicalRegister| (r.name.clone(), r.size)).collect();
    assert_eq!(view, vec![("c".to_string(), 5), ("d".to_string(), 1)]);
    assert!(classical_registers(&vec![]).unwrap().is_empty());
}

#[test]
fn empty_circuit_lowers_to_allocations_and_return() {
    let c = circuit(vec![], 2, 0);
    let blocks = lower_circuit(&c).unwrap();
    assert_eq!(
        blocks[0].instrs,
        vec![
            Instr::AllocateQubit { qubit: 0 },
            Instr::AllocateQubit { qubit: 1 },
            Instr::ReleaseQubit { qubit: 0 },
            Instr::ReleaseQubit { qubit: 1 },
            Instr::ReturnOutput,
        ]
    );
}

#[test]
fn slots_are_found_by_name_and_first_index() {
    let qubits = vec![reg("a", 0), reg("q", 3), reg("q", 0)];
    assert_eq!(qubit_slot(&qubits, &reg("q", 0)), Some(2));
    assert_eq!(qubit_slot(&qubits, &reg("q", 1)), None);
    let regs = vec![
        ClassicalRegister { name: "c".to_string(), size: 2 },
        ClassicalRegister { name: "m".to_string(), size: 3 },
    ];
    assert_eq!(result_slot(&regs, &reg("m", 2)), Some((1, 2)));
    assert_eq!(result_slot(&regs, &reg("m", 3)), None);
}

#[test]
fn patch_keeps_three_states() {
    let missing: Patch<u32> = Patch::default();
    assert!(missing.is_missing());
    let null: Patch<u32> = Patch::from_option(None);
    assert!(!null.is_missing());
    assert_eq!(null.into_option(), None);
    let value = Patch::from_option(Some(5u32));
    assert!(!value.is_missing());
    assert_eq!(value.into_option(), Some(5));
}

#[test]
fn register_duplicate_is_equal() {
    let r = Register("q".to_string(), vec![3, 4]);
    assert_eq!(r.duplicate(), r);
}
