//! The circuit data model: registers, operations, commands and circuits.
use vstd::prelude::*;

verus! {

/// A value with three states, for fields that must tell an absent field from
/// an explicit `null`.
///
/// `Missing` never reaches the wire: a container omits such a field.
#[derive(Debug)]
pub enum Patch<T> {
    Missing,
    Null,
    Value(T),
}

impl<T> Default for Patch<T> {
    fn default() -> (r: Self)
        ensures
            r is Missing,
    {
        Patch::Missing
    }
}

impl<T> Patch<T> {
    pub fn is_missing(&self) -> (r: bool)
        ensures
            r == (*self is Missing),
    {
        match self {
            Patch::Missing => true,
            _ => false,
        }
    }

    /// A present field: `None` is an explicit null.
    pub fn from_option(opt: Option<T>) -> (r: Patch<T>)
        ensures
            opt is None ==> r is Null,
            opt matches Some(v) ==> r == Patch::Value(v),
    {
        match opt {
            Some(v) => Patch::Value(v),
            None => Patch::Null,
        }
    }

    /// The plain optional value of a present field. A missing field has none.
    pub fn into_option(self) -> (r: Option<T>)
        requires
            !(self is Missing),
        ensures
            self is Null ==> r is None,
            self matches Patch::Value(v) ==> r == Some(v),
    {
        match self {
            Patch::Value(v) => Some(v),
            _ => None,
        }
    }
}

/// A named, indexed storage location: `(name, index)`. Only the first index
/// component is used by the current operations.
#[derive(Clone, Debug, PartialEq, Eq)]
pub struct Register(pub String, pub Vec<i64>);

impl View for Register {
    type V = (Seq<char>, Seq<i64>);

    open spec fn view(&self) -> (Seq<char>, Seq<i64>) {
        (self.0@, self.1@)
    }
}

/// The views of a sequence of registers.
pub open spec fn regs_view(s: Seq<Register>) -> Seq<(Seq<char>, Seq<i64>)> {
    s.map_values(|r: Register| r@)
}

impl Register {
    pub fn duplicate(&self) -> (r: Register)
        ensures
            r@ == self@,
    {
        let name = self.0.clone();
        let mut index: Vec<i64> = Vec::new();
        let mut i: usize = 0;
        while i < self.1.len()
            invariant
                i <= self.1.len(),
                index@ == self.1@.subrange(0, i as int),
            decreases self.1.len() - i,
        {
            index.push(self.1[i]);
            i = i + 1;
        }
        proof {
            assert(index@ =~= self.1@);
        }
        Register(name, index)
    }
}

/// A copy of a list of registers.
pub fn duplicate_registers(regs: &[Register]) -> (r: Vec<Register>)
    ensures
        regs_view(r@) == regs_view(regs@),
{
    let mut out: Vec<Register> = Vec::new();
    let mut i: usize = 0;
    while i < regs.len()
        invariant
            i <= regs.len(),
            out@.len() == i,
            forall|j: int| 0 <= j < i ==> #[trigger] out@[j]@ == regs@[j]@,
        decreases regs.len() - i,
    {
        let reg = regs[i].duplicate();
        out.push(reg);
        i = i + 1;
    }
    proof {
        assert(regs_view(out@) =~= regs_view(regs@));
    }
    out
}

/// The closed set of operation kinds.
#[derive(Clone, Copy, Debug, PartialEq, Eq, Structural)]
pub enum OpType {
    H,
    X,
    Y,
    Z,
    T,
    Tdg,
    CX,
    Rx,
    Ry,
    Rz,
    Measure,
    Conditional,
    CircBox,
}

/// The identifier of a box, a UUID held as its 128-bit value.
#[derive(Clone, Copy, Debug, PartialEq, Eq, Structural)]
pub struct BoxID(pub u128);

impl BoxID {
    /// The nil identifier, all bits zero.
    pub fn nil() -> (r: BoxID)
        ensures
            r.0 == 0,
    {
        BoxID(0)
    }
}

/// A complex number as the IEEE 754 single-precision bit patterns of its real
/// and imaginary parts.
#[derive(Clone, Copy, Debug, PartialEq, Eq, Structural)]
pub struct Complex {
    pub re: u32,
    pub im: u32,
}

/// A named, parametrised composite-gate definition.
#[derive(Debug)]
pub struct CompositeGate {
    /// Symbols of the parameters.
    pub args: Vec<String>,
    pub definition: Box<Circuit>,
    pub name: String,
}

/// The payload of an operation that carries a nested or heavyweight
/// definition.
#[derive(Debug)]
pub enum OpBox {
    CircBox { id: BoxID, circuit: Circuit },
    Unitary1qBox { id: BoxID, matrix: [[Complex; 2]; 2] },
    Unitary2qBox { id: BoxID, matrix: [[Complex; 4]; 4] },
    /// `phase` is the IEEE 754 double-precision bit pattern of the phase.
    ExpBox { id: BoxID, matrix: [[Complex; 4]; 4], phase: u64 },
    PauliExpBox { id: BoxID, paulis: Vec<String>, phase: String },
    PhasePolyBox { id: BoxID, n_qubits: u32, qubit_indices: Vec<(u32, u32)> },
    Composite { id: BoxID, gate: CompositeGate, params: Vec<String> },
    QControlBox { id: BoxID, n_controls: u32, op: Box<Operation> },
}

/// An operation guarded by classical bits: it runs when the `width` bits
/// read as `value`.
#[derive(Debug)]
pub struct Conditional {
    pub op: Box<Operation>,
    pub width: u32,
    pub value: u32,
}

/// An operation: its kind and the fields relevant to that kind.
#[derive(Debug)]
pub struct Operation {
    pub op_type: OpType,
    pub n_qb: Option<u32>,
    /// Symbolic parameters.
    pub params: Option<Vec<String>>,
    pub op_box: Option<OpBox>,
    pub signature: Option<Vec<String>>,
    pub conditional: Option<Conditional>,
}

impl Operation {
    /// An operation of kind `op_type` with every optional field absent.
    pub fn bare(op_type: OpType) -> (r: Operation)
        ensures
            r.op_type == op_type,
            r.n_qb is None,
            r.params is None,
            r.op_box is None,
            r.signature is None,
            r.conditional is None,
    {
        Operation {
            op_type,
            n_qb: None,
            params: None,
            op_box: None,
            signature: None,
            conditional: None,
        }
    }
}

/// An operation applied to an ordered list of registers.
#[derive(Debug)]
pub struct Command {
    pub op: Operation,
    pub args: Vec<Register>,
    pub opgroup: Option<String>,
}

/// One pair of a final qubit relabelling.
#[derive(Clone, Debug, PartialEq, Eq)]
pub struct Permutation(pub Register, pub Register);

/// A circuit: an ordered program of operations over declared registers.
#[derive(Debug)]
pub struct Circuit {
    pub name: Option<String>,
    /// Symbolic global phase.
    pub phase: String,
    pub commands: Vec<Command>,
    pub qubits: Vec<Register>,
    pub bits: Vec<Register>,
    pub implicit_permutation: Vec<Permutation>,
}

} // verus!
