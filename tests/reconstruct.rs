use tket_qir::circuit::{Circuit, Command, OpType, Operation, Register};
use tket_qir::ir::{Gate, Instr};
use tket_qir::lower::lower_circuit;
use tket_qir::reconstruct::call_for;
use tket_qir::reconstruct::{
    BasicBlock, BasicBlockExtension, Call, CallExtension, ConstArg, Function, FunctionAttribute, FunctionExtension,
    Instruction, InstructionExtension, Module, ModuleExtension, Name, NameExtension, ReconstructError,
};

const ENTRY: &str = "Microsoft__Quantum__Samples__SimpleGrover__SearchForMarkedInput__Interop";

fn qubit_null() -> ConstArg {
    ConstArg::NullPtr { pointee: "Qubit".to_string() }
}

fn qubit_at(i: i64) -> ConstArg {
    ConstArg::IntToPtr { pointee: "Qubit".to_string(), value: i }
}

fn result_at(i: i64) -> ConstArg {
    ConstArg::IntToPtr { pointee: "Result".to_string(), value: i }
}

fn call(name: &str, args: Vec<ConstArg>) -> Call {
    Call { function: Some(Name::Name(name.to_string())), arguments: args }
}

fn grover_block() -> BasicBlock {
    BasicBlock {
        instrs: vec![
            Instruction::Call(call("__quantum__qis__h__body", vec![qubit_null()])),
            Instruction::Call(call("__quantum__qis__h__body", vec![qubit_at(1)])),
            Instruction::Call(call("__quantum__qis__x__body", vec![qubit_at(2)])),
            Instruction::Call(call("__quantum__qis__cnot__body", vec![qubit_null(), qubit_at(2)])),
        ],
    }
}

fn grover_module() -> Module {
    Module {
        functions: vec![
            Function {
                name: "helper".to_string(),
                function_attributes: vec![FunctionAttribute::Other],
                basic_blocks: vec![],
            },
            Function {
                name: ENTRY.to_string(),
                function_attributes: vec![
                    FunctionAttribute::StringAttribute { kind: "EntryPoint".to_string(), value: String::new() },
                    FunctionAttribute::StringAttribute { kind: "requiredQubits".to_string(), value: "3".to_string() },
                ],
                basic_blocks: vec![grover_block()],
            },
        ],
    }
}

fn h_operation() -> Operation {
    Operation::bare(OpType::H)
}

#[test]
fn test_get_overall_function_by_name() {
    let module = grover_module();
    let funcs = module.get_func_by_name("EntryPoint");
    assert_eq!(funcs.len(), 1);
    assert_eq!(funcs[0].name, ENTRY);
    assert!(module.get_func_by_name("requiredQubits").is_empty());
}

#[test]
fn test_get_first_instruction_by_name() {
    let module = grover_module();
    let func = module.get_func_by_name("EntryPoint")[0];
    let first_instruction_name = "__quantum__qis__h__body";
    let first_instruction = func.get_instr_by_name(first_instruction_name).expect("Instruction not found.");
    let call = first_instruction.get_call().expect("Call not found.");
    assert_eq!(call.get_func_name().unwrap().as_string(), first_instruction_name.to_string());
    assert_eq!(call.get_qubit_indices(), vec![0]);
    assert!(func.get_instr_by_name("__quantum__qis__mz__body").is_none());
}

#[test]
fn test_get_qubit_index() {
    let module = grover_module();
    let func = module.get_func_by_name("EntryPoint")[0];
    let first = func.get_instr_by_name("__quantum__qis__h__body").expect("Instruction not found.");
    assert_eq!(first.get_call().unwrap().get_qubit_indices(), vec![0]);
    let second = func.get_instr_by_name("__quantum__qis__x__body").expect("Instruction not found.");
    assert_eq!(second.get_call().unwrap().get_qubit_indices(), vec![2]);
    let third = func.get_instr_by_name("__quantum__qis__cnot__body").expect("Instruction not found.");
    assert_eq!(third.get_call().unwrap().get_qubit_indices(), vec![0, 2]);
}

#[test]
fn test_get_optype() {
    let module = grover_module();
    let func = module.get_func_by_name("EntryPoint")[0];
    let first_instruction = &func.basic_blocks[0].instrs[0];
    assert_eq!(first_instruction.get_call().unwrap().get_optype(), Some(OpType::H));
}

#[test]
fn test_get_op() {
    let module = grover_module();
    let func = module.get_func_by_name("EntryPoint")[0];
    let first_call = func.basic_blocks[0].instrs[0].get_call().unwrap();
    let op = first_call.get_operation().expect("No op found.");
    assert_eq!(format!("{:?}", op), format!("{:?}", h_operation()));
}

#[test]
fn test_to_command() {
    let module = grover_module();
    let func = module.get_func_by_name("EntryPoint")[0];
    let first_call = func.basic_blocks[0].instrs[0].get_call().unwrap();
    let command = first_call.to_command().expect("No command found.");
    assert_eq!(command.op.op_type, OpType::H);
    assert!(command.op.params.is_none());
    assert_eq!(command.args, vec![Register("q".to_string(), vec![0])]);
    assert_eq!(command.opgroup, None);
}

#[test]
fn test_generate_circuit_from_instruction_list() {
    let module = grover_module();
    let func = module.get_func_by_name("EntryPoint")[0];
    let nb_qubits = func.get_nb_qubits().unwrap();
    let nb_bits = func.get_nb_bits().unwrap();
    assert_eq!((nb_qubits, nb_bits), (3, 0));
    let circuit = func.basic_blocks[0].to_circuit(nb_qubits, nb_bits).expect("Command not found.");
    let types: Vec<OpType> = circuit.commands.iter().map(|c| c.op.op_type).collect();
    assert_eq!(types, vec![OpType::H, OpType::H, OpType::X, OpType::CX]);
    assert_eq!(circuit.commands[3].args, vec![Register("q".to_string(), vec![0]), Register("q".to_string(), vec![2])]);
    assert_eq!(
        circuit.qubits,
        vec![
            Register("q".to_string(), vec![0]),
            Register("q".to_string(), vec![1]),
            Register("q".to_string(), vec![2]),
        ]
    );
    assert!(circuit.bits.is_empty());
    assert_eq!(circuit.phase, "0.0");
    assert_eq!(circuit.implicit_permutation.len(), 1);
    assert_eq!(circuit.implicit_permutation[0].0, Register("q".to_string(), vec![0]));
    assert_eq!(circuit.implicit_permutation[0].1, Register("q".to_string(), vec![0]));
}

#[test]
fn test_generate_circuit_from_single_expression() {
    let block = BasicBlock { instrs: vec![Instruction::Call(call("__quantum__qis__h__body", vec![qubit_null()]))] };
    let circuit = block.to_circuit(1, 0).expect("Optype not found.");
    assert_eq!(circuit.name, None);
    assert_eq!(circuit.commands.len(), 1);
    assert_eq!(format!("{:?}", circuit.commands[0].op), format!("{:?}", h_operation()));
    assert_eq!(circuit.commands[0].args, vec![Register("q".to_string(), vec![0])]);
    assert_eq!(circuit.qubits, vec![Register("q".to_string(), vec![0])]);
}

#[test]
fn measurement_call_keeps_qubits_and_reports_result_slots() {
    let c = call("__quantum__qis__mz__body", vec![qubit_at(1), result_at(0)]);
    assert_eq!(c.get_optype(), Some(OpType::Measure));
    assert_eq!(c.get_qubit_indices(), vec![1]);
    assert_eq!(c.get_bit_indices(), Some(vec![0]));
    let cmd = c.to_command().unwrap();
    assert_eq!(cmd.args, vec![Register("q".to_string(), vec![1])]);
    let null_result = call("__quantum__qis__mz__body", vec![qubit_null(), ConstArg::NullPtr { pointee: "Result".to_string() }]);
    assert_eq!(null_result.get_bit_indices(), Some(vec![0]));
    assert_eq!(call("__quantum__qis__h__body", vec![qubit_null()]).get_bit_indices(), None);
}

#[test]
fn rotation_call_keeps_its_angle_text() {
    let c = call("__quantum__qis__rz__body", vec![ConstArg::Double("0.25".to_string()), qubit_at(3)]);
    let cmd = c.to_command().unwrap();
    assert_eq!(cmd.op.op_type, OpType::Rz);
    assert_eq!(cmd.op.params, Some(vec!["0.25".to_string()]));
    assert_eq!(cmd.args, vec![Register("q".to_string(), vec![3])]);
    assert_eq!(call("__quantum__qis__h__body", vec![qubit_null()]).get_params(), None);
}

#[test]
fn every_intrinsic_family_is_recognised() {
    let table = [
        ("__quantum__qis__h__body", OpType::H),
        ("__quantum__qis__x__body", OpType::X),
        ("__quantum__qis__y__body", OpType::Y),
        ("__quantum__qis__z__body", OpType::Z),
        ("__quantum__qis__t__body", OpType::T),
        ("__quantum__qis__t__adj", OpType::Tdg),
        ("__quantum__qis__cnot__body", OpType::CX),
        ("__quantum__qis__rx__body", OpType::Rx),
        ("__quantum__qis__ry__body", OpType::Ry),
        ("__quantum__qis__rz__body", OpType::Rz),
        ("__quantum__qis__mz__body", OpType::Measure),
    ];
    let patterns = ["__h__", "__x__", "__y__", "__z__", "__t__body", "__t__adj", "__cnot__", "__rx__", "__ry__", "__rz__", "__mz__"];
    for (name, t) in table.iter() {
        assert_eq!(call(name, vec![qubit_null()]).get_optype(), Some(*t));
        let hits = patterns.iter().filter(|p| name.contains(*p)).count();
        assert_eq!(hits, 1, "{} matches {} patterns", name, hits);
    }
}

#[test]
fn unknown_callee_is_refused() {
    let c = call("__quantum__rt__result_record_output", vec![result_at(0)]);
    assert_eq!(c.get_optype(), None);
    assert!(c.get_operation().is_none());
    assert_eq!(c.to_command().unwrap_err(), ReconstructError::UnsupportedInstruction);
    let anonymous = Call { function: None, arguments: vec![qubit_null()] };
    assert_eq!(anonymous.to_command().unwrap_err(), ReconstructError::MissingCallee);
}

#[test]
fn call_without_qubit_operand_is_refused() {
    let c = call("__quantum__qis__h__body", vec![ConstArg::Other]);
    assert_eq!(c.to_command().unwrap_err(), ReconstructError::MissingQubitOperand);
}

#[test]
fn non_call_instruction_is_refused() {
    let block = BasicBlock { instrs: vec![Instruction::Call(call("__quantum__qis__h__body", vec![qubit_null()])), Instruction::Other] };
    assert_eq!(block.to_circuit(1, 0).unwrap_err(), ReconstructError::NotACall);
    assert!(Instruction::Other.get_call().is_none());
}

#[test]
fn counts_come_from_attributes() {
    let mut f = Function { name: "f".to_string(), function_attributes: vec![], basic_blocks: vec![] };
    assert_eq!(f.get_nb_qubits().unwrap_err(), ReconstructError::MissingQubitCount);
    assert_eq!(f.get_nb_bits().unwrap(), 0);
    f.function_attributes.push(FunctionAttribute::StringAttribute { kind: "requiredQubits".to_string(), value: "12".to_string() });
    f.function_attributes.push(FunctionAttribute::StringAttribute { kind: "requiredResults".to_string(), value: "-3".to_string() });
    assert_eq!(f.get_nb_qubits().unwrap(), 12);
    assert_eq!(f.get_nb_bits().unwrap(), -3);
    assert_eq!(f.get_attr_by_name("requiredQubits"), Some("12".to_string()));
    assert_eq!(f.get_attr_by_name("absent"), None);
    let g = Function {
        name: "g".to_string(),
        function_attributes: vec![FunctionAttribute::StringAttribute { kind: "requiredQubits".to_string(), value: "two".to_string() }],
        basic_blocks: vec![],
    };
    assert_eq!(g.get_nb_qubits().unwrap_err(), ReconstructError::InvalidCount);
}

#[test]
fn to_circuit_makes_bit_registers() {
    let block = BasicBlock { instrs: vec![] };
    let circuit = block.to_circuit(0, 2).unwrap();
    assert!(circuit.qubits.is_empty());
    assert_eq!(circuit.bits, vec![Register("c".to_string(), vec![0]), Register("c".to_string(), vec![1])]);
}

#[test]
fn numbered_name_is_written_in_decimal() {
    assert_eq!(Name::Number(0).as_string(), "0");
    assert_eq!(Name::Number(4096).as_string(), "4096");
    assert_eq!(Name::Name("x".to_string()).as_string(), "x");
    let c = Call { function: Some(Name::Number(7)), arguments: vec![qubit_null()] };
    assert_eq!(c.get_optype(), None);
}

#[test]
fn lowered_calls_rebuild_the_circuit_commands() {
    let q = |i: i64| Register("q".to_string(), vec![i]);
    let c = |i: i64| Register("c".to_string(), vec![i]);
    let cmd = |t: OpType, args: Vec<Register>| Command { op: Operation::bare(t), args, opgroup: None };
    let circ = Circuit {
        name: None,
        phase: "0.0".to_string(),
        commands: vec![
            cmd(OpType::H, vec![q(0)]),
            cmd(OpType::X, vec![q(2)]),
            cmd(OpType::CX, vec![q(0), q(1)]),
            cmd(OpType::Measure, vec![q(1), c(0)]),
        ],
        qubits: vec![q(0), q(1), q(2)],
        bits: vec![c(0)],
        implicit_permutation: vec![],
    };
    let blocks = lower_circuit(&circ).unwrap();
    let calls: Vec<Call> = blocks[0].instrs.iter().filter_map(|i: &Instr| call_for(i)).collect();
    assert_eq!(calls.len(), 4);
    let rebuilt: Vec<(OpType, Vec<Register>)> =
        calls.iter().map(|k| k.to_command().unwrap()).map(|m| (m.op.op_type, m.args)).collect();
    assert_eq!(
        rebuilt,
        vec![
            (OpType::H, vec![q(0)]),
            (OpType::X, vec![q(2)]),
            (OpType::CX, vec![q(0), q(1)]),
            (OpType::Measure, vec![q(1)]),
        ]
    );
}

#[test]
fn call_for_uses_intrinsic_names_and_pointer_constants() {
    let h = call_for(&Instr::Gate { gate: Gate::H, qubit: 3 }).unwrap();
    assert_eq!(h.function, Some(Name::Name("__quantum__qis__h__body".to_string())));
    assert_eq!(h.arguments, vec![qubit_at(3)]);
    let m = call_for(&Instr::Measure { qubit: 1, result: 4 }).unwrap();
    assert_eq!(m.function, Some(Name::Name("__quantum__qis__mz__body".to_string())));
    assert_eq!(m.arguments, vec![qubit_at(1), result_at(4)]);
    let cx = call_for(&Instr::ControlledX { control: 0, target: 2 }).unwrap();
    assert_eq!(cx.function, Some(Name::Name("__quantum__qis__cnot__body".to_string())));
    assert_eq!(cx.arguments, vec![qubit_at(0), qubit_at(2)]);
    assert!(call_for(&Instr::ReturnOutput).is_none());
    assert!(call_for(&Instr::RotateZ { angle: "1.0".to_string(), qubit: 0 }).is_none());
}
