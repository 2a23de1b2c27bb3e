//! The outside assembler's operations: how they are made and how large they are.
use vstd::prelude::*;

use fuel_etk_asm::ops::{Abstract, AbstractOp, Context, Expression, Imm, Terminal};
use fuel_etk_ops::london::{Op, Push1};

use crate::op::{be_bytes, ops_view, EvmOp, OpView};

verus! {

/// `fuel_etk_asm::ops::AbstractOp`, an operation that the assembler takes.
#[verifier::external_type_specification]
#[verifier::external_body]
pub struct ExAbstractOp(fuel_etk_asm::ops::AbstractOp);

/// The operation that holds the instruction with opcode `code` and no immediate argument.
pub uninterp spec fn plain_op(code: u8) -> AbstractOp;

/// The `push1` of the constant `n`.
pub uninterp spec fn push1_op(n: u8) -> AbstractOp;

/// The `push1` of the position of the label `name`.
pub uninterp spec fn push1_label_op(name: Seq<char>) -> AbstractOp;

/// The variable sized push of the constant `n`.
pub uninterp spec fn push_op(n: usize) -> AbstractOp;

/// The declaration of the label `name`.
pub uninterp spec fn label_op(name: Seq<char>) -> AbstractOp;

/// Makes an instruction without an immediate argument, with `fuel_etk_ops::london::Op::new`.
///
/// `Op::new` gives no instruction for the opcodes of the push instructions, which take an
/// immediate argument; for every other opcode the instruction depends on the opcode alone.
#[verifier::external_body]
pub(crate) fn make_plain_op(code: u8) -> (res: AbstractOp)
    requires
        !(0x60 <= code <= 0x7f),
    ensures
        res == plain_op(code),
{
    AbstractOp::Op(Op::<Abstract>::new(Op::<()>::from(code)).unwrap())
}

/// Makes a `push1` of a constant, with `fuel_etk_asm::ops::Imm::with_expression`. The operation
/// depends on the constant alone.
#[verifier::external_body]
pub(crate) fn make_push1_op(n: u8) -> (res: AbstractOp)
    ensures
        res == push1_op(n),
{
    AbstractOp::new(Op::Push1(Push1(Imm::with_expression(
        Expression::Terminal(Terminal::Number(n.into())),
    ))))
}

/// Makes a `push1` of a label's position, with `fuel_etk_asm::ops::Imm::with_label`. The
/// operation depends on the label's name alone.
#[verifier::external_body]
pub(crate) fn make_push1_label_op(name: String) -> (res: AbstractOp)
    ensures
        res == push1_label_op(name@),
{
    AbstractOp::new(Op::Push1(Push1(Imm::with_label(name))))
}

/// Makes a variable sized push, the variant `fuel_etk_asm::ops::AbstractOp::Push`. The operation
/// depends on the constant alone.
#[verifier::external_body]
pub(crate) fn make_push_op(n: usize) -> (res: AbstractOp)
    ensures
        res == push_op(n),
{
    AbstractOp::Push(Imm::from(Terminal::Number(n.into())))
}

/// Makes a label, the variant `fuel_etk_asm::ops::AbstractOp::Label`. The operation depends on
/// the label's name alone.
#[verifier::external_body]
pub(crate) fn make_label_op(name: String) -> (res: AbstractOp)
    ensures
        res == label_op(name@),
{
    AbstractOp::Label(name)
}

/// The operation that the assembler takes for an operation of the code generator.
pub open spec fn lowered_op(op: OpView) -> AbstractOp {
    match op {
        OpView::Push1(n) => push1_op(n),
        OpView::Push1Label(name) => push1_label_op(name),
        OpView::Push(n) => push_op(n),
        OpView::Label(name) => label_op(name),
        _ => plain_op(op.opcode()),
    }
}

/// The operations that the assembler takes for a sequence of operations.
pub open spec fn lowered(ops: Seq<OpView>) -> Seq<AbstractOp> {
    ops.map_values(|op: OpView| lowered_op(op))
}

/// Calls `fuel_etk_asm::ops::AbstractOp::size`: an instruction has one byte and those of its
/// immediate argument, a label has none, and the size of a variable sized push is left open.
#[verifier::external_body]
pub(crate) fn fixed_size(op: &AbstractOp) -> (res: Option<usize>)
    ensures
        forall|view: OpView| *op == #[trigger] lowered_op(view) ==> res == view.fixed_len(),
{
    op.size()
}

/// Calls `fuel_etk_asm::ops::AbstractOp::concretize` on a variable sized push, and
/// `fuel_etk_ops::london::Op::size` on the instruction that it gives: the push instruction whose
/// immediate argument is the constant's bytes, as few as the constant takes and at least one.
#[verifier::external_body]
pub(crate) fn concrete_size(op: AbstractOp) -> (res: Option<usize>)
    requires
        exists|n: usize| op == #[trigger] push_op(n),
    ensures
        forall|n: usize|
            op == #[trigger] push_op(n) ==> res == Some((1 + be_bytes(n as nat).len()) as usize),
{
    match op.concretize(Context::new()) {
        Ok(concrete) => Some(concrete.size()),
        Err(_) => None,
    }
}

/// The operation that the assembler takes for an operation of the code generator.
pub fn lower_op(op: &EvmOp) -> (res: AbstractOp)
    ensures
        res == lowered_op(op@),
{
    match op {
        EvmOp::Push1(n) => make_push1_op(*n),
        EvmOp::Push1Label(name) => make_push1_label_op(name.clone()),
        EvmOp::Push(n) => make_push_op(*n),
        EvmOp::Label(name) => make_label_op(name.clone()),
        EvmOp::IsZero => make_plain_op(0x15),
        EvmOp::CallValue => make_plain_op(0x34),
        EvmOp::CodeCopy => make_plain_op(0x39),
        EvmOp::Pop => make_plain_op(0x50),
        EvmOp::MStore => make_plain_op(0x52),
        EvmOp::JumpI => make_plain_op(0x57),
        EvmOp::JumpDest => make_plain_op(0x5b),
        EvmOp::Dup1 => make_plain_op(0x80),
        EvmOp::Return => make_plain_op(0xf3),
        EvmOp::Revert => make_plain_op(0xfd),
        EvmOp::Invalid => make_plain_op(0xfe),
    }
}

/// The operations that the assembler takes for a sequence of operations.
pub fn lower_ops(ops: &Vec<EvmOp>) -> (res: Vec<AbstractOp>)
    ensures
        res@ == lowered(ops_view(ops@)),
{
    let mut res: Vec<AbstractOp> = Vec::new();
    for i in 0..ops.len()
        invariant
            res@ == lowered(ops_view(ops@.take(i as int))),
    {
        res.push(lower_op(&ops[i]));
        assert(res@ =~= lowered(ops_view(ops@.take(i + 1))));
    }
    assert(ops@.take(ops@.len() as int) =~= ops@);
    res
}

} // verus!
