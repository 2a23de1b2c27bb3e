//! The EVM operations that the code generator emits, and their encoding.
use vstd::prelude::*;

verus! {

/// An operation of the assembly that the code generator emits.
///
/// Most are EVM instructions. `Label` marks a position and emits no byte, and `Push` is a push
/// of a constant in as few bytes as the constant takes.
#[derive(Debug, PartialEq, Eq)]
pub enum EvmOp {
    /// `push1` with a constant.
    Push1(u8),
    /// `push1` with the position of a label.
    Push1Label(String),
    /// A push of a constant whose width is the smallest that fits.
    Push(usize),
    /// A named position in the code.
    Label(String),
    IsZero,
    CallValue,
    CodeCopy,
    Pop,
    MStore,
    JumpI,
    JumpDest,
    Dup1,
    Return,
    Revert,
    Invalid,
}

/// What an [`EvmOp`] is, with names as sequences of characters.
pub enum OpView {
    Push1(u8),
    Push1Label(Seq<char>),
    Push(usize),
    Label(Seq<char>),
    IsZero,
    CallValue,
    CodeCopy,
    Pop,
    MStore,
    JumpI,
    JumpDest,
    Dup1,
    Return,
    Revert,
    Invalid,
}

impl View for EvmOp {
    type V = OpView;

    open spec fn view(&self) -> OpView {
        match self {
            EvmOp::Push1(n) => OpView::Push1(*n),
            EvmOp::Push1Label(name) => OpView::Push1Label(name@),
            EvmOp::Push(n) => OpView::Push(*n),
            EvmOp::Label(name) => OpView::Label(name@),
            EvmOp::IsZero => OpView::IsZero,
            EvmOp::CallValue => OpView::CallValue,
            EvmOp::CodeCopy => OpView::CodeCopy,
            EvmOp::Pop => OpView::Pop,
            EvmOp::MStore => OpView::MStore,
            EvmOp::JumpI => OpView::JumpI,
            EvmOp::JumpDest => OpView::JumpDest,
            EvmOp::Dup1 => OpView::Dup1,
            EvmOp::Return => OpView::Return,
            EvmOp::Revert => OpView::Revert,
            EvmOp::Invalid => OpView::Invalid,
        }
    }
}

impl Clone for EvmOp {
    fn clone(&self) -> (res: EvmOp)
        ensures
            res == *self,
    {
        match self {
            EvmOp::Push1(n) => EvmOp::Push1(*n),
            EvmOp::Push1Label(name) => EvmOp::Push1Label(name.clone()),
            EvmOp::Push(n) => EvmOp::Push(*n),
            EvmOp::Label(name) => EvmOp::Label(name.clone()),
            EvmOp::IsZero => EvmOp::IsZero,
            EvmOp::CallValue => EvmOp::CallValue,
            EvmOp::CodeCopy => EvmOp::CodeCopy,
            EvmOp::Pop => EvmOp::Pop,
            EvmOp::MStore => EvmOp::MStore,
            EvmOp::JumpI => EvmOp::JumpI,
            EvmOp::JumpDest => EvmOp::JumpDest,
            EvmOp::Dup1 => EvmOp::Dup1,
            EvmOp::Return => EvmOp::Return,
            EvmOp::Revert => EvmOp::Revert,
            EvmOp::Invalid => EvmOp::Invalid,
        }
    }
}

/// The views of a sequence of operations.
pub open spec fn ops_view(ops: Seq<EvmOp>) -> Seq<OpView> {
    ops.map_values(|op: EvmOp| op@)
}

/// The bytes of a number, the most significant first, without leading zeros. Zero is one byte.
pub open spec fn be_bytes(n: nat) -> Seq<u8>
    decreases n,
{
    if n < 256 {
        seq![n as u8]
    } else {
        be_bytes(n / 256).push((n % 256) as u8)
    }
}

impl OpView {
    /// The opcode of an instruction without an immediate argument.
    pub open spec fn opcode(self) -> u8 {
        match self {
            OpView::IsZero => 0x15,
            OpView::CallValue => 0x34,
            OpView::CodeCopy => 0x39,
            OpView::Pop => 0x50,
            OpView::MStore => 0x52,
            OpView::JumpI => 0x57,
            OpView::JumpDest => 0x5b,
            OpView::Dup1 => 0x80,
            OpView::Return => 0xf3,
            OpView::Revert => 0xfd,
            _ => 0xfe,
        }
    }

    /// How many bytes the operation takes in the code.
    pub open spec fn len(self) -> nat {
        match self {
            OpView::Push1(_) => 2,
            OpView::Push1Label(_) => 2,
            OpView::Push(n) => 1 + be_bytes(n as nat).len(),
            OpView::Label(_) => 0,
            _ => 1,
        }
    }

    /// How many bytes the operation takes, where that does not depend on its argument.
    pub open spec fn fixed_len(self) -> Option<usize> {
        match self {
            OpView::Push(_) => None,
            _ => Some(self.len() as usize),
        }
    }

    /// The bytes of the operation in the code `program`, which holds the labels.
    pub open spec fn bytes(self, program: Seq<OpView>) -> Seq<u8> {
        match self {
            OpView::Push1(n) => seq![0x60u8, n],
            OpView::Push1Label(name) => seq![0x60u8, label_offset(program, name) as u8],
            OpView::Push(n) => seq![(0x5f + be_bytes(n as nat).len()) as u8] + be_bytes(n as nat),
            OpView::Label(_) => seq![],
            _ => seq![self.opcode()],
        }
    }
}

/// How many bytes a sequence of operations takes in the code.
pub open spec fn code_len(ops: Seq<OpView>) -> nat
    decreases ops.len(),
{
    if ops.len() == 0 {
        0
    } else {
        code_len(ops.drop_last()) + ops.last().len()
    }
}

/// The position of the last label of that name: how many bytes stand before it.
pub open spec fn label_offset(ops: Seq<OpView>, name: Seq<char>) -> nat
    decreases ops.len(),
{
    if ops.len() == 0 {
        0
    } else if ops.last() == OpView::Label(name) {
        code_len(ops.drop_last())
    } else {
        label_offset(ops.drop_last(), name)
    }
}

/// The bytes of a part of `program`.
pub open spec fn code_in(ops: Seq<OpView>, program: Seq<OpView>) -> Seq<u8>
    decreases ops.len(),
{
    if ops.len() == 0 {
        seq![]
    } else {
        code_in(ops.drop_last(), program) + ops.last().bytes(program)
    }
}

/// The machine code of a program.
pub open spec fn machine_code(program: Seq<OpView>) -> Seq<u8> {
    code_in(program, program)
}

/// No label is declared twice.
pub open spec fn labels_distinct(ops: Seq<OpView>) -> bool {
    forall|i: int, j: int|
        #![trigger ops[i], ops[j]]
        0 <= i < j < ops.len() && ops[i] is Label ==> ops[i] != ops[j]
}

/// Every label that a push refers to is declared, at a position that fits the push.
pub open spec fn references_resolve(ops: Seq<OpView>) -> bool {
    forall|i: int|
        0 <= i < ops.len() ==> (#[trigger] ops[i] matches OpView::Push1Label(name) ==> ops.contains(
            OpView::Label(name),
        ) && label_offset(ops, name) <= 0xff)
}

/// No operation refers to a label.
pub open spec fn refers_nowhere(ops: Seq<OpView>) -> bool {
    forall|i: int| 0 <= i < ops.len() ==> !(#[trigger] ops[i] is Push1Label)
}

/// The operations make up a program: its labels are distinct and its references resolve.
pub open spec fn assembles(ops: Seq<OpView>) -> bool {
    labels_distinct(ops) && references_resolve(ops)
}

/// A number of the machine takes between one and eight bytes.
pub proof fn lemma_be_bytes_len(n: usize)
    ensures
        1 <= be_bytes(n as nat).len() <= 8,
{
    reveal_with_fuel(be_bytes, 9);
    let n1 = n as nat / 256;
    let n2 = n1 / 256;
    let n3 = n2 / 256;
    let n4 = n3 / 256;
    let n5 = n4 / 256;
    let n6 = n5 / 256;
    let n7 = n6 / 256;
    assert(n <= 0xffff_ffff_ffff_ffff);
    assert(n7 < 256);
}

/// An operation adds its own length.
pub proof fn lemma_code_len_push(ops: Seq<OpView>, op: OpView)
    ensures
        code_len(ops.push(op)) == code_len(ops) + op.len(),
{
    assert(ops.push(op).drop_last() =~= ops);
}

/// A part of the code is no longer than the code.
pub proof fn lemma_code_len_take(ops: Seq<OpView>, n: int)
    requires
        0 <= n <= ops.len(),
    ensures
        code_len(ops.take(n)) <= code_len(ops),
    decreases ops.len(),
{
    if n < ops.len() {
        assert(ops.drop_last().take(n) =~= ops.take(n));
        lemma_code_len_take(ops.drop_last(), n);
    } else {
        assert(ops.take(n) =~= ops);
    }
}

/// The length of two pieces of code is that of both.
pub proof fn lemma_code_len_add(a: Seq<OpView>, b: Seq<OpView>)
    ensures
        code_len(a + b) == code_len(a) + code_len(b),
    decreases b.len(),
{
    if b.len() == 0 {
        assert(a + b =~= a);
    } else {
        assert((a + b).drop_last() =~= a + b.drop_last());
        lemma_code_len_add(a, b.drop_last());
    }
}

/// Where labels are distinct, the position of a label is the length of the code before it.
pub proof fn lemma_label_offset(ops: Seq<OpView>, i: int)
    requires
        labels_distinct(ops),
        0 <= i < ops.len(),
        ops[i] is Label,
    ensures
        label_offset(ops, ops[i]->Label_0) == code_len(ops.take(i)),
    decreases ops.len(),
{
    if i == ops.len() - 1 {
        assert(ops.drop_last() =~= ops.take(i));
    } else {
        let rest = ops.drop_last();
        assert(ops[i] != ops[ops.len() - 1]);
        assert(labels_distinct(rest)) by {
            assert forall|j: int, k: int|
                #![trigger rest[j], rest[k]]
                0 <= j < k < rest.len() && rest[j] is Label implies rest[j] != rest[k] by {
                assert(rest[j] == ops[j] && rest[k] == ops[k]);
            }
        }
        assert(rest.take(i) =~= ops.take(i));
        lemma_label_offset(rest, i);
    }
}

} // verus!
