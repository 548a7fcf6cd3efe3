//! Reconstruction of a circuit from the calls of an IR function.
//!
//! The operation of each call is recovered from its callee's name, its
//! qubits and result slots from constant pointer operands, and its
//! parameters from floating-point constant operands.
use vstd::prelude::*;

use crate::circuit::{regs_view, Circuit, Command, OpType, Operation, Permutation, Register};
use crate::ir::{intrinsic_call, intrinsic_calls, Gate, Instr};
use crate::lower::{lower_cmds_spec, EmitState, LayoutModel};
use crate::lower_laws::{appended, command_call, is_flat, lemma_flat_commands_one_call_each, op_qubits};
use crate::text::{append_decimal, decimal, decimal_i64, occurs_in, parse_i64, str_contains};

verus! {

/// Why a circuit cannot be rebuilt from an IR function.
#[derive(Clone, Copy, Debug, PartialEq, Eq, Structural)]
pub enum ReconstructError {
    /// A call whose callee is not a named function.
    MissingCallee,
    /// A call to a function that is no known intrinsic.
    UnsupportedInstruction,
    /// An intrinsic call without a constant qubit operand.
    MissingQubitOperand,
    /// An instruction that is not a call.
    NotACall,
    /// A function without the attribute that gives its qubit count.
    MissingQubitCount,
    /// A count attribute that is not a decimal integer.
    InvalidCount,
}

/// The name of a value or function: a string, or a number for an unnamed
/// one.
#[derive(Clone, Debug, PartialEq, Eq)]
pub enum Name {
    Name(String),
    Number(usize),
}

/// The text of a name.
pub open spec fn name_text(n: Name) -> Seq<char> {
    match n {
        Name::Name(s) => s@,
        Name::Number(k) => decimal(k as nat),
    }
}

pub trait NameExtension {
    spec fn text(&self) -> Seq<char>;

    fn as_string(&self) -> (r: String)
        ensures
            r@ == self.text(),
    ;
}

impl NameExtension for Name {
    open spec fn text(&self) -> Seq<char> {
        name_text(*self)
    }

    fn as_string(&self) -> (r: String) {
        match self {
            Name::Name(s) => s.clone(),
            Name::Number(k) => {
                let mut out = String::new();
                append_decimal(&mut out, *k);
                proof {
                    assert(out@ =~= decimal(*k as nat));
                }
                out
            },
        }
    }
}

/// A constant operand of a call, as far as reconstruction reads it.
#[derive(Clone, Debug, PartialEq, Eq)]
pub enum ConstArg {
    /// An integer cast to a pointer to the named structure type.
    IntToPtr { pointee: String, value: i64 },
    /// A null pointer to the named structure type.
    NullPtr { pointee: String },
    /// A double-precision constant, written in decimal.
    Double(String),
    /// Any other operand.
    Other,
}

/// The index that operand `a` gives to a pointer to structure `ty`: the
/// integer cast to it, or 0 for the null pointer.
pub open spec fn operand_index(a: ConstArg, ty: Seq<char>) -> Option<i64> {
    match a {
        ConstArg::IntToPtr { pointee, value } => if pointee@ == ty {
            Some(value)
        } else {
            None
        },
        ConstArg::NullPtr { pointee } => if pointee@ == ty {
            Some(0)
        } else {
            None
        },
        _ => None,
    }
}

/// The indices that the operands of `args` give to pointers to structure
/// `ty`, in operand order.
pub open spec fn operand_indices(args: Seq<ConstArg>, ty: Seq<char>) -> Seq<i64>
    decreases args.len(),
{
    if args.len() == 0 {
        Seq::empty()
    } else {
        let r = operand_indices(args.drop_last(), ty);
        match operand_index(args.last(), ty) {
            Some(v) => r.push(v),
            None => r,
        }
    }
}

/// The decimal texts of the floating-point operands of `args`, in order.
pub open spec fn double_operands(args: Seq<ConstArg>) -> Seq<String>
    decreases args.len(),
{
    if args.len() == 0 {
        Seq::empty()
    } else {
        let r = double_operands(args.drop_last());
        match args.last() {
            ConstArg::Double(s) => r.push(s),
            _ => r,
        }
    }
}

/// The operation kind of an intrinsic, from the first of these fragments
/// that its name holds.
pub open spec fn optype_of(name: Seq<char>) -> Option<OpType> {
    if occurs_in(name, "__h__"@) {
        Some(OpType::H)
    } else if occurs_in(name, "__x__"@) {
        Some(OpType::X)
    } else if occurs_in(name, "__y__"@) {
        Some(OpType::Y)
    } else if occurs_in(name, "__z__"@) {
        Some(OpType::Z)
    } else if occurs_in(name, "__t__body"@) {
        Some(OpType::T)
    } else if occurs_in(name, "__t__adj"@) {
        Some(OpType::Tdg)
    } else if occurs_in(name, "__cnot__"@) {
        Some(OpType::CX)
    } else if occurs_in(name, "__rx__"@) {
        Some(OpType::Rx)
    } else if occurs_in(name, "__ry__"@) {
        Some(OpType::Ry)
    } else if occurs_in(name, "__rz__"@) {
        Some(OpType::Rz)
    } else if occurs_in(name, "__mz__"@) {
        Some(OpType::Measure)
    } else {
        None
    }
}

/// The operation kind of a call, from its callee's name.
pub open spec fn call_optype(callee: Option<Name>) -> Option<OpType> {
    match callee {
        Some(n) => optype_of(name_text(n)),
        None => None,
    }
}

/// The qubit register `("q", [i])`.
pub open spec fn qubit_register(i: i64) -> (Seq<char>, Seq<i64>) {
    ("q"@, seq![i])
}

/// The bit register `("c", [i])`.
pub open spec fn bit_register(i: i64) -> (Seq<char>, Seq<i64>) {
    ("c"@, seq![i])
}

/// A call instruction: its callee, when it is a named function, and its
/// operands.
#[derive(Clone, Debug, PartialEq, Eq)]
pub struct Call {
    pub function: Option<Name>,
    pub arguments: Vec<ConstArg>,
}

fn indices_of(args: &Vec<ConstArg>, ty: &str) -> (r: Vec<i64>)
    ensures
        r@ == operand_indices(args@, ty@),
{
    let ty_owned = ty.to_owned();
    let mut out: Vec<i64> = Vec::new();
    let mut i: usize = 0;
    while i < args.len()
        invariant
            i <= args@.len(),
            ty_owned@ == ty@,
            out@ == operand_indices(args@.subrange(0, i as int), ty@),
        decreases args.len() - i,
    {
        let ghost pre = args@.subrange(0, i as int + 1);
        proof {
            assert(pre.drop_last() =~= args@.subrange(0, i as int));
            assert(pre.last() == args@[i as int]);
        }
        match &args[i] {
            ConstArg::IntToPtr { pointee, value } => {
                if *pointee == ty_owned {
                    out.push(*value);
                }
            },
            ConstArg::NullPtr { pointee } => {
                if *pointee == ty_owned {
                    out.push(0);
                }
            },
            _ => {},
        }
        i = i + 1;
    }
    proof {
        assert(args@.subrange(0, args@.len() as int) =~= args@);
    }
    out
}

pub trait CallExtension {
    spec fn callee(&self) -> Option<Name>;

    spec fn operands(&self) -> Seq<ConstArg>;

    fn get_func_name(&self) -> (r: Option<Name>)
        ensures
            r == self.callee(),
    ;

    /// The qubit indices of the constant qubit-pointer operands.
    fn get_qubit_indices(&self) -> (r: Vec<i64>)
        ensures
            r@ == operand_indices(self.operands(), "Qubit"@),
    ;

    /// The slot indices of the constant result-pointer operands, if any.
    fn get_bit_indices(&self) -> (r: Option<Vec<i64>>)
        ensures
            operand_indices(self.operands(), "Result"@).len() == 0 ==> r is None,
            operand_indices(self.operands(), "Result"@).len() > 0 ==> (r matches Some(v) && v@ == operand_indices(
                self.operands(),
                "Result"@,
            )),
    ;

    fn get_optype(&self) -> (r: Option<OpType>)
        ensures
            r == call_optype(self.callee()),
    ;

    /// The decimal texts of the floating-point operands, if any.
    fn get_params(&self) -> (r: Option<Vec<String>>)
        ensures
            double_operands(self.operands()).len() == 0 ==> r is None,
            double_operands(self.operands()).len() > 0 ==> (r matches Some(v) && v@ == double_operands(self.operands())),
    ;

    /// The operation of the call: its kind and parameters.
    fn get_operation(&self) -> (r: Option<Operation>)
        ensures
            call_optype(self.callee()) is None ==> r is None,
            call_optype(self.callee()) is Some ==> (r matches Some(op) && {
                &&& op.op_type == call_optype(self.callee())->0
                &&& op.n_qb is None
                &&& op.op_box is None
                &&& op.signature is None
                &&& op.conditional is None
                &&& (double_operands(self.operands()).len() == 0 ==> op.params is None)
                &&& (double_operands(self.operands()).len() > 0 ==> (op.params matches Some(v) && v@ == double_operands(
                    self.operands(),
                )))
            }),
    ;

    /// The command of the call: its operation applied to the qubits
    /// `("q", [i])` of its qubit operands.
    fn to_command(&self) -> (r: Result<Command, ReconstructError>)
        ensures
            self.callee() is None ==> r == Err::<Command, ReconstructError>(ReconstructError::MissingCallee),
            self.callee() is Some && call_optype(self.callee()) is None ==> r == Err::<Command, ReconstructError>(
                ReconstructError::UnsupportedInstruction,
            ),
            call_optype(self.callee()) is Some && operand_indices(self.operands(), "Qubit"@).len() == 0 ==> r
                == Err::<Command, ReconstructError>(ReconstructError::MissingQubitOperand),
            call_optype(self.callee()) is Some && operand_indices(self.operands(), "Qubit"@).len() > 0 ==> (r
                matches Ok(cmd) && {
                &&& cmd.op.op_type == call_optype(self.callee())->0
                &&& cmd.op.n_qb is None
                &&& cmd.op.op_box is None
                &&& cmd.op.signature is None
                &&& cmd.op.conditional is None
                &&& (double_operands(self.operands()).len() == 0 ==> cmd.op.params is None)
                &&& (double_operands(self.operands()).len() > 0 ==> (cmd.op.params matches Some(v) && v@
                    == double_operands(self.operands())))
                &&& regs_view(cmd.args@) == operand_indices(self.operands(), "Qubit"@).map_values(
                    |i: i64| qubit_register(i),
                )
                &&& cmd.opgroup is None
            }),
    ;
}

impl CallExtension for Call {
    open spec fn callee(&self) -> Option<Name> {
        self.function
    }

    open spec fn operands(&self) -> Seq<ConstArg> {
        self.arguments@
    }

    fn get_func_name(&self) -> (r: Option<Name>) {
        match &self.function {
            Some(Name::Name(s)) => Some(Name::Name(s.clone())),
            Some(Name::Number(k)) => Some(Name::Number(*k)),
            None => None,
        }
    }

    fn get_qubit_indices(&self) -> (r: Vec<i64>) {
        indices_of(&self.arguments, "Qubit")
    }

    fn get_bit_indices(&self) -> (r: Option<Vec<i64>>) {
        let v = indices_of(&self.arguments, "Result");
        if v.len() == 0 {
            None
        } else {
            Some(v)
        }
    }

    fn get_optype(&self) -> (r: Option<OpType>) {
        let name = match &self.function {
            Some(n) => n.as_string(),
            None => {
                return None;
            },
        };
        let s = name.as_str();
        if str_contains(s, "__h__") {
            Some(OpType::H)
        } else if str_contains(s, "__x__") {
            Some(OpType::X)
        } else if str_contains(s, "__y__") {
            Some(OpType::Y)
        } else if str_contains(s, "__z__") {
            Some(OpType::Z)
        } else if str_contains(s, "__t__body") {
            Some(OpType::T)
        } else if str_contains(s, "__t__adj") {
            Some(OpType::Tdg)
        } else if str_contains(s, "__cnot__") {
            Some(OpType::CX)
        } else if str_contains(s, "__rx__") {
            Some(OpType::Rx)
        } else if str_contains(s, "__ry__") {
            Some(OpType::Ry)
        } else if str_contains(s, "__rz__") {
            Some(OpType::Rz)
        } else if str_contains(s, "__mz__") {
            Some(OpType::Measure)
        } else {
            None
        }
    }

    fn get_params(&self) -> (r: Option<Vec<String>>) {
        let mut out: Vec<String> = Vec::new();
        let mut i: usize = 0;
        while i < self.arguments.len()
            invariant
                i <= self.arguments@.len(),
                out@ == double_operands(self.arguments@.subrange(0, i as int)),
            decreases self.arguments.len() - i,
        {
            let ghost pre = self.arguments@.subrange(0, i as int + 1);
            proof {
                assert(pre.drop_last() =~= self.arguments@.subrange(0, i as int));
                assert(pre.last() == self.arguments@[i as int]);
            }
            match &self.arguments[i] {
                ConstArg::Double(s) => {
                    out.push(s.clone());
                },
                _ => {},
            }
            i = i + 1;
        }
        proof {
            assert(self.arguments@.subrange(0, self.arguments@.len() as int) =~= self.arguments@);
        }
        if out.len() == 0 {
            None
        } else {
            Some(out)
        }
    }

    fn get_operation(&self) -> (r: Option<Operation>) {
        let op_type = match self.get_optype() {
            Some(t) => t,
            None => {
                return None;
            },
        };
        let mut op = Operation::bare(op_type);
        op.params = self.get_params();
        Some(op)
    }

    fn to_command(&self) -> (r: Result<Command, ReconstructError>) {
        if self.function.is_none() {
            return Err(ReconstructError::MissingCallee);
        }
        let op = match self.get_operation() {
            Some(op) => op,
            None => {
                return Err(ReconstructError::UnsupportedInstruction);
            },
        };
        let indices = self.get_qubit_indices();
        if indices.len() == 0 {
            return Err(ReconstructError::MissingQubitOperand);
        }
        let mut args: Vec<Register> = Vec::new();
        let mut i: usize = 0;
        while i < indices.len()
            invariant
                i <= indices@.len(),
                args@.len() == i,
                forall|j: int| 0 <= j < i ==> #[trigger] args@[j]@ == qubit_register(indices@[j]),
            decreases indices.len() - i,
        {
            let reg = qubit(indices[i]);
            args.push(reg);
            i = i + 1;
        }
        proof {
            assert(regs_view(args@) =~= indices@.map_values(|j: i64| qubit_register(j)));
        }
        Ok(Command { op, args, opgroup: None })
    }
}

/// The qubit register `("q", [i])`.
fn qubit(i: i64) -> (r: Register)
    ensures
        r@ == qubit_register(i),
{
    let mut index: Vec<i64> = Vec::new();
    index.push(i);
    proof {
        assert(index@ =~= seq![i]);
    }
    Register("q".to_owned(), index)
}

/// The bit register `("c", [i])`.
fn bit(i: i64) -> (r: Register)
    ensures
        r@ == bit_register(i),
{
    let mut index: Vec<i64> = Vec::new();
    index.push(i);
    proof {
        assert(index@ =~= seq![i]);
    }
    Register("c".to_owned(), index)
}

/// The error of rebuilding the command of a call, if any.
pub open spec fn call_error(c: Call) -> Option<ReconstructError> {
    if c.function is None {
        Some(ReconstructError::MissingCallee)
    } else if call_optype(c.function) is None {
        Some(ReconstructError::UnsupportedInstruction)
    } else if operand_indices(c.arguments@, "Qubit"@).len() == 0 {
        Some(ReconstructError::MissingQubitOperand)
    } else {
        None
    }
}

/// `cmd` is the command rebuilt from call `c`.
pub open spec fn rebuilt(cmd: Command, c: Call) -> bool {
    &&& cmd.op.op_type == call_optype(c.function)->0
    &&& cmd.op.n_qb is None
    &&& cmd.op.op_box is None
    &&& cmd.op.signature is None
    &&& cmd.op.conditional is None
    &&& (double_operands(c.arguments@).len() == 0 ==> cmd.op.params is None)
    &&& (double_operands(c.arguments@).len() > 0 ==> (cmd.op.params matches Some(v) && v@ == double_operands(
        c.arguments@,
    )))
    &&& regs_view(cmd.args@) == operand_indices(c.arguments@, "Qubit"@).map_values(|i: i64| qubit_register(i))
    &&& cmd.opgroup is None
}

/// `cmd` is the command rebuilt from instruction `ins`, a call.
pub open spec fn rebuilt_from(cmd: Command, ins: Instruction) -> bool {
    match ins {
        Instruction::Call(c) => rebuilt(cmd, c),
        Instruction::Other => false,
    }
}

/// An instruction of a basic block.
#[derive(Clone, Debug, PartialEq, Eq)]
pub enum Instruction {
    Call(Call),
    Other,
}

pub trait InstructionExtension {
    spec fn call_of(&self) -> Option<Call>;

    /// The call that the instruction is, if it is one.
    fn get_call(&self) -> (r: Option<&Call>)
        ensures
            self.call_of() is None ==> r is None,
            self.call_of() matches Some(c) ==> (r matches Some(rc) && *rc == c),
    ;
}

impl InstructionExtension for Instruction {
    open spec fn call_of(&self) -> Option<Call> {
        match *self {
            Instruction::Call(c) => Some(c),
            Instruction::Other => None,
        }
    }

    fn get_call(&self) -> (r: Option<&Call>) {
        match self {
            Instruction::Call(c) => Some(c),
            Instruction::Other => None,
        }
    }
}

/// The error of rebuilding a command from each of `instrs`, in order: that
/// of the first instruction that is no call or whose call fails.
pub open spec fn block_error(instrs: Seq<Instruction>) -> Option<ReconstructError>
    decreases instrs.len(),
{
    if instrs.len() == 0 {
        None
    } else {
        match block_error(instrs.drop_last()) {
            Some(e) => Some(e),
            None => match instrs.last() {
                Instruction::Other => Some(ReconstructError::NotACall),
                Instruction::Call(c) => call_error(c),
            },
        }
    }
}

proof fn lemma_block_error_prefix(s: Seq<Instruction>, i: int)
    requires
        0 <= i <= s.len(),
        block_error(s.subrange(0, i)) is Some,
    ensures
        block_error(s) == block_error(s.subrange(0, i)),
    decreases s.len() - i,
{
    if i < s.len() {
        assert(s.subrange(0, i + 1).drop_last() =~= s.subrange(0, i));
        lemma_block_error_prefix(s, i + 1);
    } else {
        assert(s.subrange(0, i) =~= s);
    }
}

/// The qubit registers `("q", [0])` up to `("q", [n - 1])`.
pub open spec fn qubit_registers(n: i64) -> Seq<(Seq<char>, Seq<i64>)> {
    Seq::new(if n > 0 { n as nat } else { 0 }, |i: int| qubit_register(i as i64))
}

/// The bit registers `("c", [0])` up to `("c", [n - 1])`.
pub open spec fn bit_registers(n: i64) -> Seq<(Seq<char>, Seq<i64>)> {
    Seq::new(if n > 0 { n as nat } else { 0 }, |i: int| bit_register(i as i64))
}

/// A basic block: its instructions, in order.
#[derive(Clone, Debug, PartialEq, Eq)]
pub struct BasicBlock {
    pub instrs: Vec<Instruction>,
}

/// The registers `(name, [0])` up to `(name, [n - 1])`.
fn numbered_registers(n: i64, qubits: bool) -> (r: Vec<Register>)
    ensures
        qubits ==> regs_view(r@) == qubit_registers(n),
        !qubits ==> regs_view(r@) == bit_registers(n),
{
    let mut out: Vec<Register> = Vec::new();
    let mut i: i64 = 0;
    while i < n
        invariant
            0 <= i,
            n > 0 ==> i <= n,
            n <= 0 ==> i == 0,
            out@.len() == i,
            forall|j: int| 0 <= j < i ==> #[trigger] out@[j]@ == if qubits {
                qubit_register(j as i64)
            } else {
                bit_register(j as i64)
            },
        decreases n - i,
    {
        let reg = if qubits {
            qubit(i)
        } else {
            bit(i)
        };
        out.push(reg);
        i = i + 1;
    }
    proof {
        if qubits {
            assert(regs_view(out@) =~= qubit_registers(n));
        } else {
            assert(regs_view(out@) =~= bit_registers(n));
        }
    }
    out
}

pub trait BasicBlockExtension {
    spec fn instructions(&self) -> Seq<Instruction>;

    /// The circuit of the block's calls, one command per call, over the
    /// qubits `("q", [i])` for `i < nb_qubits` and the bits `("c", [i])` for
    /// `i < nb_bits`, with phase `0.0` and the identity relabelling of
    /// `("q", [0])`.
    fn to_circuit(&self, nb_qubits: i64, nb_bits: i64) -> (r: Result<Circuit, ReconstructError>)
        ensures
            match r {
                Err(e) => block_error(self.instructions()) == Some(e),
                Ok(c) => {
                    &&& block_error(self.instructions()) is None
                    &&& c.name is None
                    &&& c.phase@ == "0.0"@
                    &&& c.commands@.len() == self.instructions().len()
                    &&& forall|i: int| 0 <= i < c.commands@.len() ==> rebuilt_from(#[trigger] c.commands@[i], self.instructions()[i])
                    &&& regs_view(c.qubits@) == qubit_registers(nb_qubits)
                    &&& regs_view(c.bits@) == bit_registers(nb_bits)
                    &&& c.implicit_permutation@.len() == 1
                    &&& c.implicit_permutation@[0].0@ == qubit_register(0)
                    &&& c.implicit_permutation@[0].1@ == qubit_register(0)
                },
            },
    ;
}

impl BasicBlockExtension for BasicBlock {
    open spec fn instructions(&self) -> Seq<Instruction> {
        self.instrs@
    }

    fn to_circuit(&self, nb_qubits: i64, nb_bits: i64) -> (r: Result<Circuit, ReconstructError>) {
        let mut commands: Vec<Command> = Vec::new();
        let mut i: usize = 0;
        while i < self.instrs.len()
            invariant
                i <= self.instrs@.len(),
                block_error(self.instrs@.subrange(0, i as int)) is None,
                commands@.len() == i,
                forall|j: int| 0 <= j < i ==> rebuilt_from(#[trigger] commands@[j], self.instrs@[j]),
            decreases self.instrs.len() - i,
        {
            let ghost pre = self.instrs@.subrange(0, i as int + 1);
            proof {
                assert(pre.drop_last() =~= self.instrs@.subrange(0, i as int));
                assert(pre.last() == self.instrs@[i as int]);
            }
            let call = match self.instrs[i].get_call() {
                Some(c) => c,
                None => {
                    proof {
                        lemma_block_error_prefix(self.instrs@, i as int + 1);
                    }
                    return Err(ReconstructError::NotACall);
                },
            };
            proof {
                assert(self.instrs@[i as int] == Instruction::Call(*call));
            }
            match call.to_command() {
                Ok(cmd) => {
                    proof {
                        assert(call_error(*call) is None);
                        assert(rebuilt(cmd, *call));
                    }
                    commands.push(cmd);
                    proof {
                        assert(commands@[i as int] == cmd);
                    }
                },
                Err(e) => {
                    proof {
                        lemma_block_error_prefix(self.instrs@, i as int + 1);
                    }
                    return Err(e);
                },
            }
            i = i + 1;
        }
        proof {
            assert(self.instrs@.subrange(0, self.instrs@.len() as int) =~= self.instrs@);
        }
        let mut implicit_permutation: Vec<Permutation> = Vec::new();
        implicit_permutation.push(Permutation(qubit(0), qubit(0)));
        Ok(
            Circuit {
                name: None,
                phase: "0.0".to_owned(),
                commands,
                qubits: numbered_registers(nb_qubits, true),
                bits: numbered_registers(nb_bits, false),
                implicit_permutation,
            },
        )
    }
}

/// An attribute of a function.
#[derive(Clone, Debug, PartialEq, Eq)]
pub enum FunctionAttribute {
    StringAttribute { kind: String, value: String },
    Other,
}

/// The value of the first string attribute of kind `name`.
pub open spec fn attr_value(attrs: Seq<FunctionAttribute>, name: Seq<char>) -> Option<String>
    decreases attrs.len(),
{
    if attrs.len() == 0 {
        None
    } else {
        match attrs[0] {
            FunctionAttribute::StringAttribute { kind, value } => if kind@ == name {
                Some(value)
            } else {
                attr_value(attrs.subrange(1, attrs.len() as int), name)
            },
            FunctionAttribute::Other => attr_value(attrs.subrange(1, attrs.len() as int), name),
        }
    }
}

/// Instruction `ins` calls the function named `name`.
pub open spec fn calls_named(ins: Instruction, name: Seq<char>) -> bool {
    ins matches Instruction::Call(c) && c.function matches Some(n) && name_text(n) == name
}

/// A function: its name, attributes and basic blocks.
#[derive(Clone, Debug, PartialEq, Eq)]
pub struct Function {
    pub name: String,
    pub function_attributes: Vec<FunctionAttribute>,
    pub basic_blocks: Vec<BasicBlock>,
}

pub trait FunctionExtension {
    spec fn attributes(&self) -> Seq<FunctionAttribute>;

    spec fn blocks(&self) -> Seq<BasicBlock>;

    /// The value of the first string attribute of kind `name`.
    fn get_attr_by_name(&self, name: &str) -> (r: Option<String>)
        ensures
            r == attr_value(self.attributes(), name@),
    ;

    /// The first call, over the blocks in order, to the function named
    /// `name`.
    fn get_instr_by_name(&self, name: &str) -> (r: Option<&Instruction>)
        ensures
            r matches Some(ins) ==> exists|b: int, j: int|
                0 <= b < self.blocks().len() && 0 <= j < self.blocks()[b].instrs@.len() && self.blocks()[b].instrs@[j]
                    == *ins && calls_named(*ins, name@) && (forall|b1: int, j1: int|
                    0 <= b1 < b && 0 <= j1 < self.blocks()[b1].instrs@.len() ==> !calls_named(
                        #[trigger] self.blocks()[b1].instrs@[j1],
                        name@,
                    )) && (forall|j1: int|
                    0 <= j1 < j ==> !calls_named(#[trigger] self.blocks()[b].instrs@[j1], name@)),
            r is None ==> forall|b: int, j: int|
                0 <= b < self.blocks().len() && 0 <= j < self.blocks()[b].instrs@.len() ==> !calls_named(
                    #[trigger] self.blocks()[b].instrs@[j],
                    name@,
                ),
    ;

    /// The qubit count that the `requiredQubits` attribute gives.
    fn get_nb_qubits(&self) -> (r: Result<i64, ReconstructError>)
        ensures
            match attr_value(self.attributes(), "requiredQubits"@) {
                None => r == Err::<i64, ReconstructError>(ReconstructError::MissingQubitCount),
                Some(v) => match decimal_i64(v@) {
                    None => r == Err::<i64, ReconstructError>(ReconstructError::InvalidCount),
                    Some(n) => r == Ok::<i64, ReconstructError>(n),
                },
            },
    ;

    /// The result count that the `requiredResults` attribute gives, 0
    /// without it.
    fn get_nb_bits(&self) -> (r: Result<i64, ReconstructError>)
        ensures
            match attr_value(self.attributes(), "requiredResults"@) {
                None => r == Ok::<i64, ReconstructError>(0),
                Some(v) => match decimal_i64(v@) {
                    None => r == Err::<i64, ReconstructError>(ReconstructError::InvalidCount),
                    Some(n) => r == Ok::<i64, ReconstructError>(n),
                },
            },
    ;
}

impl FunctionExtension for Function {
    open spec fn attributes(&self) -> Seq<FunctionAttribute> {
        self.function_attributes@
    }

    open spec fn blocks(&self) -> Seq<BasicBlock> {
        self.basic_blocks@
    }

    fn get_attr_by_name(&self, name: &str) -> (r: Option<String>) {
        let name_owned = name.to_owned();
        let attrs = &self.function_attributes;
        let mut i: usize = 0;
        proof {
            assert(attrs@.subrange(0, attrs@.len() as int) =~= attrs@);
        }
        while i < attrs.len()
            invariant
                i <= attrs@.len(),
                attrs@ == self.function_attributes@,
                name_owned@ == name@,
                attr_value(attrs@, name@) == attr_value(attrs@.subrange(i as int, attrs@.len() as int), name@),
            decreases attrs.len() - i,
        {
            let ghost rest = attrs@.subrange(i as int, attrs@.len() as int);
            proof {
                assert(rest[0] == attrs@[i as int]);
                assert(rest.subrange(1, rest.len() as int) =~= attrs@.subrange(i + 1, attrs@.len() as int));
            }
            match &attrs[i] {
                FunctionAttribute::StringAttribute { kind, value } => {
                    if *kind == name_owned {
                        return Some(value.clone());
                    }
                },
                FunctionAttribute::Other => {},
            }
            i = i + 1;
        }
        None
    }

    fn get_instr_by_name(&self, name: &str) -> (r: Option<&Instruction>) {
        let name_owned = name.to_owned();
        let blocks = &self.basic_blocks;
        let mut b: usize = 0;
        while b < blocks.len()
            invariant
                b <= blocks@.len(),
                blocks@ == self.basic_blocks@,
                name_owned@ == name@,
                forall|b1: int, j1: int|
                    0 <= b1 < b && 0 <= j1 < blocks@[b1].instrs@.len() ==> !calls_named(
                        #[trigger] blocks@[b1].instrs@[j1],
                        name@,
                    ),
            decreases blocks.len() - b,
        {
            let instrs = &blocks[b].instrs;
            let mut j: usize = 0;
            while j < instrs.len()
                invariant
                    b < blocks@.len(),
                    blocks@ == self.basic_blocks@,
                    instrs@ == blocks@[b as int].instrs@,
                    j <= instrs@.len(),
                    name_owned@ == name@,
                    forall|b1: int, j1: int|
                        0 <= b1 < b && 0 <= j1 < blocks@[b1].instrs@.len() ==> !calls_named(
                            #[trigger] blocks@[b1].instrs@[j1],
                            name@,
                        ),
                    forall|j1: int| 0 <= j1 < j ==> !calls_named(#[trigger] instrs@[j1], name@),
                decreases instrs.len() - j,
            {
                let ins = &instrs[j];
                let mut hit = false;
                match ins {
                    Instruction::Call(c) => match &c.function {
                        Some(n) => {
                            let text = n.as_string();
                            hit = text == name_owned;
                        },
                        None => {},
                    },
                    Instruction::Other => {},
                }
                if hit {
                    proof {
                        assert(blocks@[b as int].instrs@[j as int] == *ins);
                        assert(calls_named(*ins, name@));
                        assert(self.blocks()[b as int].instrs@[j as int] == *ins);
                    }
                    return Some(ins);
                }
                j = j + 1;
            }
            b = b + 1;
        }
        None
    }

    fn get_nb_qubits(&self) -> (r: Result<i64, ReconstructError>) {
        match self.get_attr_by_name("requiredQubits") {
            None => Err(ReconstructError::MissingQubitCount),
            Some(v) => match parse_i64(v.as_str()) {
                None => Err(ReconstructError::InvalidCount),
                Some(n) => Ok(n),
            },
        }
    }

    fn get_nb_bits(&self) -> (r: Result<i64, ReconstructError>) {
        match self.get_attr_by_name("requiredResults") {
            None => Ok(0),
            Some(v) => match parse_i64(v.as_str()) {
                None => Err(ReconstructError::InvalidCount),
                Some(n) => Ok(n),
            },
        }
    }
}

/// Function `f` carries the string attribute `name` with an empty value.
pub open spec fn has_flag(f: Function, name: Seq<char>) -> bool {
    exists|i: int|
        0 <= i < f.function_attributes@.len() && (#[trigger] f.function_attributes@[i] matches FunctionAttribute::StringAttribute {
            kind,
            value,
        } && kind@ == name && value@.len() == 0)
}

/// The functions of `fs` that carry the flag `name`, in order.
pub open spec fn flagged(fs: Seq<Function>, name: Seq<char>) -> Seq<Function>
    decreases fs.len(),
{
    if fs.len() == 0 {
        Seq::empty()
    } else if has_flag(fs.last(), name) {
        flagged(fs.drop_last(), name).push(fs.last())
    } else {
        flagged(fs.drop_last(), name)
    }
}

fn carries_flag(f: &Function, name: &String) -> (r: bool)
    ensures
        r == has_flag(*f, name@),
{
    let attrs = &f.function_attributes;
    let mut i: usize = 0;
    while i < attrs.len()
        invariant
            i <= attrs@.len(),
            attrs@ == f.function_attributes@,
            forall|j: int| 0 <= j < i ==> !(#[trigger] attrs@[j] matches FunctionAttribute::StringAttribute {
                kind,
                value,
            } && kind@ == name@ && value@.len() == 0),
        decreases attrs.len() - i,
    {
        match &attrs[i] {
            FunctionAttribute::StringAttribute { kind, value } => {
                if *kind == *name && value.as_str().is_empty() {
                    return true;
                }
            },
            FunctionAttribute::Other => {},
        }
        i = i + 1;
    }
    false
}

/// A module: its functions, in order.
#[derive(Clone, Debug, PartialEq, Eq)]
pub struct Module {
    pub functions: Vec<Function>,
}

pub trait ModuleExtension {
    spec fn funcs(&self) -> Seq<Function>;

    /// The functions that carry the string attribute `name` with an empty
    /// value, in order.
    fn get_func_by_name(&self, name: &str) -> (r: Vec<&Function>)
        ensures
            r@.len() == flagged(self.funcs(), name@).len(),
            forall|i: int| 0 <= i < r@.len() ==> *r@[i] == #[trigger] flagged(self.funcs(), name@)[i],
    ;
}

impl ModuleExtension for Module {
    open spec fn funcs(&self) -> Seq<Function> {
        self.functions@
    }

    fn get_func_by_name(&self, name: &str) -> (r: Vec<&Function>) {
        let name_owned = name.to_owned();
        let mut out: Vec<&Function> = Vec::new();
        let mut i: usize = 0;
        while i < self.functions.len()
            invariant
                i <= self.functions@.len(),
                name_owned@ == name@,
                out@.len() == flagged(self.functions@.subrange(0, i as int), name@).len(),
                forall|k: int| 0 <= k < out@.len() ==> *out@[k] == #[trigger] flagged(
                    self.functions@.subrange(0, i as int),
                    name@,
                )[k],
            decreases self.functions.len() - i,
        {
            let ghost pre = self.functions@.subrange(0, i as int + 1);
            proof {
                assert(pre.drop_last() =~= self.functions@.subrange(0, i as int));
                assert(pre.last() == self.functions@[i as int]);
            }
            let f = &self.functions[i];
            if carries_flag(f, &name_owned) {
                out.push(f);
            }
            i = i + 1;
        }
        proof {
            assert(self.functions@.subrange(0, self.functions@.len() as int) =~= self.functions@);
        }
        out
    }
}

/// No window of `s` starts with the first four characters of `pat`.
proof fn lemma_absent(s: Seq<char>, pat: Seq<char>)
    requires
        pat.len() >= 4,
        forall|i: int|
            0 <= i && i + pat.len() <= s.len() ==> (#[trigger] s[i] != pat[0] || s[i + 1] != pat[1] || s[i + 2] != pat[2]
                || s[i + 3] != pat[3]),
    ensures
        !occurs_in(s, pat),
{
    assert forall|i: int| 0 <= i && i + pat.len() <= s.len() implies #[trigger] s.subrange(i, i + pat.len()) != pat by {
        if s.subrange(i, i + pat.len()) == pat {
            assert(s.subrange(i, i + pat.len())[0] == s[i]);
            assert(s.subrange(i, i + pat.len())[1] == s[i + 1]);
            assert(s.subrange(i, i + pat.len())[2] == s[i + 2]);
            assert(s.subrange(i, i + pat.len())[3] == s[i + 3]);
        }
    }
}

/// The name of the intrinsic that a gate or measurement kind calls.
pub open spec fn intrinsic_name(t: OpType) -> Seq<char> {
    match t {
        OpType::H => "__quantum__qis__h__body"@,
        OpType::X => "__quantum__qis__x__body"@,
        OpType::Y => "__quantum__qis__y__body"@,
        OpType::Z => "__quantum__qis__z__body"@,
        OpType::CX => "__quantum__qis__cnot__body"@,
        _ => "__quantum__qis__mz__body"@,
    }
}

/// The kinds whose intrinsic calls take constant operands only.
pub open spec fn has_static_call(t: OpType) -> bool {
    t == OpType::H || t == OpType::X || t == OpType::Y || t == OpType::Z || t == OpType::CX || t == OpType::Measure
}

/// Operand `a` is the constant `v` cast to a pointer to structure `ty`.
pub open spec fn is_ptr_arg(a: ConstArg, ty: Seq<char>, v: i64) -> bool {
    a matches ConstArg::IntToPtr { pointee, value } && pointee@ == ty && value == v
}

/// `c` calls the intrinsic of `t` on the qubits `qs`, each passed as its
/// slot cast to a qubit pointer; a measurement passes a result pointer last.
pub open spec fn is_call_for(t: OpType, qs: Seq<usize>, c: Call) -> bool {
    &&& c.function matches Some(Name::Name(n)) && n@ == intrinsic_name(t)
    &&& c.arguments@.len() == if t == OpType::Measure {
        qs.len() + 1
    } else {
        qs.len()
    }
    &&& forall|k: int| 0 <= k < qs.len() ==> is_ptr_arg(#[trigger] c.arguments@[k], "Qubit"@, qs[k] as i64)
    &&& t == OpType::Measure ==> (c.arguments@[qs.len() as int] matches ConstArg::IntToPtr { pointee, .. } && pointee@
        == "Result"@)
}

/// The intrinsic call of an instruction, when its operands are constants.
pub open spec fn static_call(i: Instr) -> Option<(OpType, Seq<usize>)> {
    match intrinsic_call(i) {
        Some(p) => if has_static_call(p.0) {
            Some(p)
        } else {
            None
        },
        None => None,
    }
}

/// `r` is the call for the intrinsic call `p`, or nothing without one.
pub open spec fn calls_as(p: Option<(OpType, Seq<usize>)>, r: Option<Call>) -> bool {
    match p {
        Some(p) => r matches Some(c) && is_call_for(p.0, p.1, c),
        None => r is None,
    }
}

fn ptr_arg(ty: &str, v: i64) -> (r: ConstArg)
    ensures
        is_ptr_arg(r, ty@, v),
{
    ConstArg::IntToPtr { pointee: ty.to_owned(), value: v }
}

/// The call that an intrinsic-calling instruction becomes when each qubit is
/// addressed as its slot, and each measurement's result as its number, cast
/// to a pointer.
pub fn call_for(i: &Instr) -> (r: Option<Call>)
    ensures
        calls_as(static_call(*i), r),
        i matches Instr::Measure { result, .. } ==> (r matches Some(c) && is_ptr_arg(
            c.arguments@[1],
            "Result"@,
            result as i64,
        )),
{
    let (name, qubits, result): (&str, Vec<usize>, Option<usize>) = match i {
        Instr::Gate { gate, qubit } => {
            let name = match gate {
                Gate::H => "__quantum__qis__h__body",
                Gate::X => "__quantum__qis__x__body",
                Gate::Y => "__quantum__qis__y__body",
                Gate::Z => "__quantum__qis__z__body",
            };
            let mut qs: Vec<usize> = Vec::new();
            qs.push(*qubit);
            (name, qs, None)
        },
        Instr::ControlledX { control, target } => {
            let mut qs: Vec<usize> = Vec::new();
            qs.push(*control);
            qs.push(*target);
            ("__quantum__qis__cnot__body", qs, None)
        },
        Instr::Measure { qubit, result } => {
            let mut qs: Vec<usize> = Vec::new();
            qs.push(*qubit);
            ("__quantum__qis__mz__body", qs, Some(*result))
        },
        _ => {
            return None;
        },
    };
    proof {
        let p = static_call(*i)->0;
        assert(qubits@ =~= p.1);
        assert(name@ == intrinsic_name(p.0));
    }
    let mut arguments: Vec<ConstArg> = Vec::new();
    let mut k: usize = 0;
    while k < qubits.len()
        invariant
            k <= qubits@.len(),
            arguments@.len() == k,
            forall|j: int| 0 <= j < k ==> is_ptr_arg(#[trigger] arguments@[j], "Qubit"@, qubits@[j] as i64),
        decreases qubits.len() - k,
    {
        arguments.push(ptr_arg("Qubit", qubits[k] as i64));
        k = k + 1;
    }
    match result {
        Some(res) => {
            arguments.push(ptr_arg("Result", res as i64));
        },
        None => {},
    }
    Some(Call { function: Some(Name::Name(name.to_owned())), arguments })
}

proof fn lemma_occurs_at(s: Seq<char>, pat: Seq<char>, i: int)
    requires
        0 <= i && i + pat.len() <= s.len(),
        s.subrange(i, i + pat.len()) =~= pat,
    ensures
        occurs_in(s, pat),
{
}

/// The intrinsic of each kind with constant operands is recognised as that
/// kind.
pub proof fn lemma_intrinsic_names_recognised(t: OpType)
    requires
        has_static_call(t),
    ensures
        optype_of(intrinsic_name(t)) == Some(t),
{
    reveal_strlit("__quantum__qis__h__body");
    reveal_strlit("__quantum__qis__x__body");
    reveal_strlit("__quantum__qis__y__body");
    reveal_strlit("__quantum__qis__z__body");
    reveal_strlit("__quantum__qis__cnot__body");
    reveal_strlit("__quantum__qis__mz__body");
    reveal_strlit("__h__");
    reveal_strlit("__x__");
    reveal_strlit("__y__");
    reveal_strlit("__z__");
    reveal_strlit("__t__body");
    reveal_strlit("__t__adj");
    reveal_strlit("__cnot__");
    reveal_strlit("__rx__");
    reveal_strlit("__ry__");
    reveal_strlit("__rz__");
    reveal_strlit("__mz__");
    let s = intrinsic_name(t);
    if t == OpType::H {
        lemma_occurs_at(s, "__h__"@, 14);
    } else if t == OpType::X {
        lemma_absent(s, "__h__"@);
        lemma_occurs_at(s, "__x__"@, 14);
    } else if t == OpType::Y {
        lemma_absent(s, "__h__"@);
        lemma_absent(s, "__x__"@);
        lemma_occurs_at(s, "__y__"@, 14);
    } else if t == OpType::Z {
        lemma_absent(s, "__h__"@);
        lemma_absent(s, "__x__"@);
        lemma_absent(s, "__y__"@);
        lemma_occurs_at(s, "__z__"@, 14);
    } else if t == OpType::CX {
        lemma_absent(s, "__h__"@);
        lemma_absent(s, "__x__"@);
        lemma_absent(s, "__y__"@);
        lemma_absent(s, "__z__"@);
        lemma_absent(s, "__t__body"@);
        lemma_absent(s, "__t__adj"@);
        lemma_occurs_at(s, "__cnot__"@, 14);
    } else {
        lemma_absent(s, "__h__"@);
        lemma_absent(s, "__x__"@);
        lemma_absent(s, "__y__"@);
        lemma_absent(s, "__z__"@);
        lemma_absent(s, "__t__body"@);
        lemma_absent(s, "__t__adj"@);
        lemma_absent(s, "__cnot__"@);
        lemma_absent(s, "__rx__"@);
        lemma_absent(s, "__ry__"@);
        lemma_absent(s, "__rz__"@);
        lemma_occurs_at(s, "__mz__"@, 14);
    }
}

proof fn lemma_operand_indices_prefix(args: Seq<ConstArg>, qs: Seq<usize>, n: int)
    requires
        0 <= n <= qs.len(),
        qs.len() <= args.len(),
        forall|k: int| 0 <= k < qs.len() ==> is_ptr_arg(#[trigger] args[k], "Qubit"@, qs[k] as i64),
    ensures
        operand_indices(args.subrange(0, n), "Qubit"@) == qs.subrange(0, n).map_values(|q: usize| q as i64),
        double_operands(args.subrange(0, n)).len() == 0,
    decreases n,
{
    if n > 0 {
        lemma_operand_indices_prefix(args, qs, n - 1);
        assert(args.subrange(0, n).drop_last() =~= args.subrange(0, n - 1));
        assert(args.subrange(0, n).last() == args[n - 1]);
        assert(qs.subrange(0, n).map_values(|q: usize| q as i64) =~= qs.subrange(0, n - 1).map_values(
            |q: usize| q as i64,
        ).push(qs[n - 1] as i64));
    } else {
        assert(qs.subrange(0, 0).map_values(|q: usize| q as i64) =~= Seq::<i64>::empty());
    }
}

/// A call built for a kind with constant operands rebuilds to a command of
/// that kind on the qubits it passes, without parameters.
pub proof fn lemma_call_for_rebuilds(t: OpType, qs: Seq<usize>, c: Call)
    requires
        has_static_call(t),
        qs.len() > 0,
        is_call_for(t, qs, c),
    ensures
        call_error(c) is None,
        call_optype(c.function) == Some(t),
        operand_indices(c.arguments@, "Qubit"@) == qs.map_values(|q: usize| q as i64),
        double_operands(c.arguments@).len() == 0,
{
    lemma_intrinsic_names_recognised(t);
    let args = c.arguments@;
    let n = qs.len() as int;
    lemma_operand_indices_prefix(args, qs, n);
    assert(qs.subrange(0, n) =~= qs);
    if t == OpType::Measure {
        reveal_strlit("Qubit");
        reveal_strlit("Result");
        assert(args.subrange(0, n + 1).drop_last() =~= args.subrange(0, n));
        assert(args.subrange(0, n + 1) =~= args);
        assert("Result"@ != "Qubit"@) by {
            assert("Result"@.len() != "Qubit"@.len());
        }
    } else {
        assert(args.subrange(0, n) =~= args);
    }
    assert(qs.map_values(|q: usize| q as i64).len() > 0);
}

/// Rebuilding the calls of a lowered straight-line body gives back its
/// commands: the call made for each command's intrinsic call rebuilds to a
/// command of the same kind, on the qubits `("q", [i])` of the slots of the
/// command's qubit operands.
pub proof fn lemma_reconstruction_inverts_lowering(lay: LayoutModel, st: EmitState, cmds: Seq<Command>, calls: Seq<Call>)
    requires
        st.wf(),
        forall|j: int| 0 <= j < cmds.len() ==> has_static_call(#[trigger] cmds[j].op.op_type),
        lower_cmds_spec(lay, st, cmds) is Ok,
        calls.len() == cmds.len(),
        forall|j: int|
            0 <= j < calls.len() ==> is_call_for(
                #[trigger] intrinsic_calls(appended(st, lower_cmds_spec(lay, st, cmds)->Ok_0))[j].0,
                intrinsic_calls(appended(st, lower_cmds_spec(lay, st, cmds)->Ok_0))[j].1,
                calls[j],
            ),
    ensures
        forall|j: int|
            0 <= j < calls.len() ==> {
                &&& call_error(#[trigger] calls[j]) is None
                &&& call_optype(calls[j].function) == Some(cmds[j].op.op_type)
                &&& operand_indices(calls[j].arguments@, "Qubit"@) == op_qubits(lay, cmds[j].op, regs_view(cmds[j].args@)).map_values(
                    |q: usize| q as i64,
                )
                &&& double_operands(calls[j].arguments@).len() == 0
            },
{
    assert forall|j: int| 0 <= j < cmds.len() implies is_flat(#[trigger] cmds[j].op.op_type) by {
        assert(has_static_call(cmds[j].op.op_type));
    }
    lemma_flat_commands_one_call_each(lay, st, cmds);
    let fin = lower_cmds_spec(lay, st, cmds)->Ok_0;
    let pairs = intrinsic_calls(appended(st, fin));
    assert forall|j: int| 0 <= j < calls.len() implies {
        &&& call_error(#[trigger] calls[j]) is None
        &&& call_optype(calls[j].function) == Some(cmds[j].op.op_type)
        &&& operand_indices(calls[j].arguments@, "Qubit"@) == op_qubits(lay, cmds[j].op, regs_view(cmds[j].args@)).map_values(
            |q: usize| q as i64,
        )
        &&& double_operands(calls[j].arguments@).len() == 0
    } by {
        assert(pairs[j] == command_call(lay, cmds[j]));
        assert(has_static_call(cmds[j].op.op_type));
        lemma_call_for_rebuilds(pairs[j].0, pairs[j].1, calls[j]);
    }
}

} // verus!
