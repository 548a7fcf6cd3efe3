//! The model of an emitted IR function body: basic blocks of instructions
//! over qubit handles, result handles and result arrays.
use vstd::prelude::*;

use crate::circuit::OpType;

verus! {

/// A result handle that an instruction reads.
#[derive(Clone, Copy, Debug, PartialEq, Eq, Structural)]
pub enum Handle {
    /// The canonical handle of the value `false` (zero).
    Zero,
    /// The canonical handle of the value `true` (one).
    One,
    /// The handle returned by the measurement numbered `result`.
    Measured(usize),
    /// The handle held in slot `offset` of the result array of the classical
    /// register numbered `register`, as it stands when the instruction runs.
    Stored { register: usize, offset: u64 },
}

/// A single-qubit gate without parameters.
#[derive(Clone, Copy, Debug, PartialEq, Eq, Structural)]
pub enum Gate {
    H,
    X,
    Y,
    Z,
}

/// One IR instruction. Qubits are numbered by their position in the
/// circuit's declared qubits, classical registers by their position in the
/// function's register table, measurements in the order they are emitted.
#[derive(Clone, Debug, PartialEq, Eq)]
pub enum Instr {
    /// Allocates the handle of qubit `qubit`.
    AllocateQubit { qubit: usize },
    /// Releases the handle of qubit `qubit`.
    ReleaseQubit { qubit: usize },
    /// Allocates the result array of register `register`, of `len` slots, as
    /// element `register` of the function's output array.
    AllocateResultArray { register: usize, len: u64 },
    /// Calls the intrinsic of `gate` on qubit `qubit`.
    Gate { gate: Gate, qubit: usize },
    /// Calls the Z-rotation intrinsic by the angle written `angle` on qubit
    /// `qubit`.
    RotateZ { angle: String, qubit: usize },
    /// Creates the single-element array that holds the control qubit.
    CreateControlWrapper { control: usize },
    /// Calls the controlled-X intrinsic with the control wrapper of `control`
    /// and the target `target`.
    ControlledX { control: usize, target: usize },
    /// Decrements the reference count of the control wrapper of `control`.
    ReleaseControlWrapper { control: usize },
    /// Calls the measurement intrinsic on qubit `qubit`; its handle is the
    /// measurement numbered `result`.
    Measure { qubit: usize, result: usize },
    /// Adds `delta` to the reference count of a result handle.
    UpdateResultRef { handle: Handle, delta: i32 },
    /// Stores the handle of measurement `result` in slot `offset` of the
    /// result array of register `register`.
    StoreResult { register: usize, offset: u64, result: usize },
    /// Branches to `then_block` if the two handles hold equal values, to
    /// `else_block` otherwise.
    BranchIfEqual { lhs: Handle, rhs: Handle, then_block: usize, else_block: usize },
    /// Branches to `target`.
    Branch { target: usize },
    /// Returns the output array.
    ReturnOutput,
}

/// The role of a basic block.
#[derive(Clone, Copy, Debug, PartialEq, Eq, Structural)]
pub enum BlockKind {
    Entry,
    Then,
    Else,
    Continue,
}

#[derive(Debug)]
pub struct Block {
    pub kind: BlockKind,
    pub instrs: Vec<Instr>,
}

impl View for Block {
    type V = (BlockKind, Seq<Instr>);

    open spec fn view(&self) -> (BlockKind, Seq<Instr>) {
        (self.kind, self.instrs@)
    }
}

/// The views of a sequence of blocks.
pub open spec fn blocks_view(s: Seq<Block>) -> Seq<(BlockKind, Seq<Instr>)> {
    s.map_values(|b: Block| b@)
}

/// The operation kind whose intrinsic an instruction calls, and the qubits
/// it passes, in operand order; for the instructions that call a gate or
/// measurement intrinsic.
pub open spec fn intrinsic_call(i: Instr) -> Option<(OpType, Seq<usize>)> {
    match i {
        Instr::Gate { gate, qubit } => Some(
            (
                match gate {
                    Gate::H => OpType::H,
                    Gate::X => OpType::X,
                    Gate::Y => OpType::Y,
                    Gate::Z => OpType::Z,
                },
                seq![qubit],
            ),
        ),
        Instr::RotateZ { qubit, .. } => Some((OpType::Rz, seq![qubit])),
        Instr::ControlledX { control, target } => Some((OpType::CX, seq![control, target])),
        Instr::Measure { qubit, .. } => Some((OpType::Measure, seq![qubit])),
        _ => None,
    }
}

/// The intrinsic calls of `s`, in order.
pub open spec fn intrinsic_calls(s: Seq<Instr>) -> Seq<(OpType, Seq<usize>)>
    decreases s.len(),
{
    if s.len() == 0 {
        Seq::empty()
    } else {
        let rest = intrinsic_calls(s.drop_last());
        match intrinsic_call(s.last()) {
            Some(k) => rest.push(k),
            None => rest,
        }
    }
}

pub proof fn lemma_intrinsic_calls_append(a: Seq<Instr>, b: Seq<Instr>)
    ensures
        intrinsic_calls(a + b) == intrinsic_calls(a) + intrinsic_calls(b),
    decreases b.len(),
{
    if b.len() == 0 {
        assert(a + b =~= a);
        assert(intrinsic_calls(b) =~= Seq::empty());
        assert(intrinsic_calls(a) + intrinsic_calls(b) =~= intrinsic_calls(a));
    } else {
        lemma_intrinsic_calls_append(a, b.drop_last());
        assert((a + b).drop_last() =~= a + b.drop_last());
        assert((a + b).last() == b.last());
        match intrinsic_call(b.last()) {
            Some(k) => {
                assert(intrinsic_calls(a) + intrinsic_calls(b) =~= (intrinsic_calls(a)
                    + intrinsic_calls(b.drop_last())).push(k));
            },
            None => {},
        }
    }
}

} // verus!
