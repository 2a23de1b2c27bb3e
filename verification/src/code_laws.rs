//! What the code consists of: its bytes, and where its labels stand.
use vstd::prelude::*;

use crate::abi::{constructor_operation, function_operation};
use crate::error::{ErrorView, SpanView};
use crate::etk::{label_op, lowered, lowered_op, plain_op, push1_label_op, push1_op, push_op};
use crate::ir::{Block, ContextView, Function, Instruction, Type, Value, ValueView};
use crate::label::{label_name, Label};
use crate::laws::{law_code_len_counts_bytes, lemma_code_in_add, lemma_guard_code};
use crate::model::{
    blocks_ops, compiled_functions, constructor_ops, constructor_section, contract_section,
    copy_ops, heading_ops, is_handled_value, joined_abi, joined_ops, lemma_constructor_assembles,
    lemma_with_all_extends, lemma_with_all_grows, setup_ops, trap_ops, value_errors,
    value_guard_ops, value_ops, values_ops, BlockLabels, BuilderView, Call, ProgramKind,
    SectionView,
};
use crate::op::{
    be_bytes, code_in, code_len, label_offset, labels_distinct, lemma_be_bytes_len,
    lemma_label_offset, machine_code, OpView,
};

verus! {

/// The number that bytes stand for, the most significant first.
pub open spec fn be_value(bytes: Seq<u8>) -> nat
    decreases bytes.len(),
{
    if bytes.len() == 0 {
        0
    } else {
        256 * be_value(bytes.drop_last()) + bytes.last() as nat
    }
}

/// The bytes of a number stand for it, and there are as few of them as can be, but at least one.
pub proof fn law_bytes_of_a_number(n: nat)
    ensures
        be_value(be_bytes(n)) == n,
        be_bytes(n).len() >= 1,
        be_bytes(n).len() > 1 ==> be_bytes(n)[0] != 0,
    decreases n,
{
    let bytes = be_bytes(n);
    if n < 256 {
        assert(bytes.drop_last() =~= seq![]);
        assert(be_value(bytes.drop_last()) == 0);
    } else {
        law_bytes_of_a_number(n / 256);
        assert(bytes.drop_last() =~= be_bytes(n / 256));
        if be_bytes(n / 256).len() == 1 {
            assert(be_bytes(n / 256).drop_last() =~= seq![]);
            assert(be_value(be_bytes(n / 256).drop_last()) == 0);
            assert(be_bytes(n / 256)[0] == n / 256);
        }
    }
}

proof fn lemma_code_of_one(op: OpView, program: Seq<OpView>)
    ensures
        code_in(seq![op], program) == op.bytes(program),
{
    assert(seq![op].drop_last() =~= seq![]);
    assert(code_in(seq![], program) =~= seq![]);
    assert(code_in(seq![op], program) =~= op.bytes(program));
}

/// The bytes of the operations, one by one. A push of a constant is the instruction for as many
/// bytes as follow it, and these bytes stand for the constant and start with no zero, unless the
/// constant is zero.
pub proof fn law_bytes_of_operations(program: Seq<OpView>, n: u8, constant: usize, name: Seq<char>)
    ensures
        code_in(seq![OpView::Push1(n)], program) == seq![0x60u8, n],
        code_in(seq![OpView::Label(name)], program) == Seq::<u8>::empty(),
        code_in(seq![OpView::IsZero], program) == seq![0x15u8],
        code_in(seq![OpView::CallValue], program) == seq![0x34u8],
        code_in(seq![OpView::CodeCopy], program) == seq![0x39u8],
        code_in(seq![OpView::Pop], program) == seq![0x50u8],
        code_in(seq![OpView::MStore], program) == seq![0x52u8],
        code_in(seq![OpView::JumpI], program) == seq![0x57u8],
        code_in(seq![OpView::JumpDest], program) == seq![0x5bu8],
        code_in(seq![OpView::Dup1], program) == seq![0x80u8],
        code_in(seq![OpView::Return], program) == seq![0xf3u8],
        code_in(seq![OpView::Revert], program) == seq![0xfdu8],
        code_in(seq![OpView::Invalid], program) == seq![0xfeu8],
        ({
            let code = code_in(seq![OpView::Push(constant)], program);
            &&& 2 <= code.len() <= 9
            &&& code[0] == 0x5f + (code.len() - 1)
            &&& be_value(code.skip(1)) == constant
            &&& code.len() > 2 ==> code[1] != 0
        }),
{
    lemma_code_of_one(OpView::Push1(n), program);
    lemma_code_of_one(OpView::Label(name), program);
    lemma_code_of_one(OpView::IsZero, program);
    lemma_code_of_one(OpView::CallValue, program);
    lemma_code_of_one(OpView::CodeCopy, program);
    lemma_code_of_one(OpView::Pop, program);
    lemma_code_of_one(OpView::MStore, program);
    lemma_code_of_one(OpView::JumpI, program);
    lemma_code_of_one(OpView::JumpDest, program);
    lemma_code_of_one(OpView::Dup1, program);
    lemma_code_of_one(OpView::Return, program);
    lemma_code_of_one(OpView::Revert, program);
    lemma_code_of_one(OpView::Invalid, program);
    lemma_code_of_one(OpView::Push(constant), program);
    lemma_be_bytes_len(constant);
    law_bytes_of_a_number(constant as nat);
    let code = code_in(seq![OpView::Push(constant)], program);
    assert(code.skip(1) =~= be_bytes(constant as nat));
}

/// The bytes of a push of a constant.
pub open spec fn push_bytes(n: usize) -> Seq<u8> {
    seq![(0x5f + be_bytes(n as nat).len()) as u8] + be_bytes(n as nat)
}

/// The bytes of code that copies `data_size` bytes of the code that start at `data_offset` to the
/// start of the memory and returns them.
pub open spec fn copy_bytes(data_size: usize, data_offset: usize) -> Seq<u8> {
    push_bytes(data_size) + seq![0x80u8] + push_bytes(data_offset) + seq![
        0x60u8,
        0x00,
        0x39,
        0x60,
        0x00,
        0xf3,
    ]
}

proof fn lemma_copy_code(data_size: usize, data_offset: usize, program: Seq<OpView>)
    ensures
        code_in(copy_ops(data_size, data_offset), program) == copy_bytes(data_size, data_offset),
{
    let size = seq![OpView::Push(data_size)];
    let dup = seq![OpView::Dup1];
    let offset = seq![OpView::Push(data_offset)];
    let copy = seq![OpView::Push1(0x00), OpView::CodeCopy];
    let ret = seq![OpView::Push1(0x00), OpView::Return];
    assert(copy_ops(data_size, data_offset) =~= size + dup + offset + copy + ret);
    lemma_code_in_add(size, dup, program);
    lemma_code_in_add(size + dup, offset, program);
    lemma_code_in_add(size + dup + offset, copy, program);
    lemma_code_in_add(size + dup + offset + copy, ret, program);
    lemma_code_of_one(OpView::Push(data_size), program);
    lemma_code_of_one(OpView::Dup1, program);
    lemma_code_of_one(OpView::Push(data_offset), program);
    assert(code_in(copy, program) =~= seq![0x60u8, 0x00, 0x39]) by {
        reveal_with_fuel(code_in, 3);
    }
    assert(code_in(ret, program) =~= seq![0x60u8, 0x00, 0xf3]) by {
        reveal_with_fuel(code_in, 3);
    }
    assert(code_in(copy_ops(data_size, data_offset), program) =~= copy_bytes(
        data_size,
        data_offset,
    ));
}

/// The bytes of a constructor that takes no ether into account, whatever its two numbers.
pub proof fn law_bytes_of_the_constructor(data_size: usize, data_offset: usize)
    ensures
        machine_code(constructor_ops(false, data_size, data_offset)) == seq![
            0x60u8,
            0x80,
            0x60,
            0x40,
            0x52,
        ] + copy_bytes(data_size, data_offset),
{
    let ops = constructor_ops(false, data_size, data_offset);
    lemma_code_in_add(setup_ops(), copy_ops(data_size, data_offset), ops);
    lemma_copy_code(data_size, data_offset, ops);
    lemma_setup_code(ops);
}

proof fn lemma_setup_code(program: Seq<OpView>)
    ensures
        code_in(setup_ops(), program) == seq![0x60u8, 0x80, 0x60, 0x40, 0x52],
{
    reveal_with_fuel(code_in, 4);
    assert(code_in(setup_ops(), program) =~= seq![0x60u8, 0x80, 0x60, 0x40, 0x52]);
}

/// The bytes of a constructor that reverts if ether was sent, whatever its two numbers.
pub proof fn law_bytes_of_the_payable_constructor(data_size: usize, data_offset: usize)
    ensures
        machine_code(constructor_ops(true, data_size, data_offset)) == seq![
            0x60u8,
            0x80,
            0x60,
            0x40,
            0x52,
        ] + seq![0x34u8, 0x80, 0x15, 0x60, 0x0f] + seq![0x57u8, 0x60, 0x00, 0x80, 0xfd] + seq![
            0x5bu8,
            0x50,
        ] + copy_bytes(data_size, data_offset),
{
    let ops = constructor_ops(true, data_size, data_offset);
    let copy = copy_ops(data_size, data_offset);
    lemma_constructor_assembles(true, data_size, data_offset);
    lemma_guard_code(ops);
    lemma_code_in_add(setup_ops() + value_guard_ops(), copy, ops);
    lemma_code_in_add(setup_ops(), value_guard_ops(), ops);
    lemma_copy_code(data_size, data_offset, ops);
    lemma_setup_code(ops);
    assert(machine_code(ops) =~= seq![0x60u8, 0x80, 0x60, 0x40, 0x52] + seq![
        0x34u8,
        0x80,
        0x15,
        0x60,
        0x0f,
    ] + seq![0x57u8, 0x60, 0x00, 0x80, 0xfd] + seq![0x5bu8, 0x50] + copy_bytes(
        data_size,
        data_offset,
    ));
}

/// How many of the values are return instructions.
pub open spec fn returns_in(context: ContextView, values: Seq<Value>) -> nat {
    values.filter(
        |value: Value|
            context.value(value).instruction matches Some(Instruction::Ret(_, _)),
    ).len()
}

proof fn lemma_returns_in_last(context: ContextView, values: Seq<Value>)
    requires
        values.len() > 0,
    ensures
        returns_in(context, values) == returns_in(context, values.drop_last()) + if context.value(
            values.last(),
        ).instruction matches Some(Instruction::Ret(_, _)) {
            1nat
        } else {
            0
        },
{
    reveal(Seq::filter);
}

/// The code of instructions is one return for each of them that is a return, and it is joined as
/// the instructions are.
pub proof fn law_code_of_instructions(
    context: ContextView,
    a: Seq<Value>,
    b: Seq<Value>,
    program: Seq<OpView>,
)
    ensures
        values_ops(context, a) == Seq::new(returns_in(context, a), |i: int| OpView::Return),
        code_in(values_ops(context, a), program) == Seq::new(
            returns_in(context, a),
            |i: int| 0xf3u8,
        ),
        values_ops(context, a + b) == values_ops(context, a) + values_ops(context, b),
{
    lemma_values_ops_count(context, a);
    lemma_values_ops_count(context, b);
    lemma_values_ops_count(context, a + b);
    lemma_code_of_returns(returns_in(context, a), program);
    reveal(Seq::filter);
    Seq::filter_distributes_over_add(
        a,
        b,
        |value: Value|
            context.value(value).instruction matches Some(Instruction::Ret(_, _)),
    );
    assert(returns_in(context, a + b) == returns_in(context, a) + returns_in(context, b));
    assert(values_ops(context, a + b) =~= values_ops(context, a) + values_ops(context, b));
}

proof fn lemma_values_ops_count(context: ContextView, values: Seq<Value>)
    ensures
        values_ops(context, values) == Seq::new(
            returns_in(context, values),
            |i: int| OpView::Return,
        ),
    decreases values.len(),
{
    if values.len() == 0 {
        reveal(Seq::filter);
        assert(values_ops(context, values) =~= Seq::new(
            returns_in(context, values),
            |i: int| OpView::Return,
        ));
    } else {
        lemma_values_ops_count(context, values.drop_last());
        lemma_returns_in_last(context, values);
        assert(values_ops(context, values) =~= Seq::new(
            returns_in(context, values),
            |i: int| OpView::Return,
        ));
    }
}

proof fn lemma_code_of_returns(n: nat, program: Seq<OpView>)
    ensures
        code_in(Seq::new(n, |i: int| OpView::Return), program) == Seq::new(n, |i: int| 0xf3u8),
    decreases n,
{
    let ops = Seq::new(n, |i: int| OpView::Return);
    if n > 0 {
        let rest = Seq::new((n - 1) as nat, |i: int| OpView::Return);
        lemma_code_of_returns((n - 1) as nat, program);
        assert(ops.drop_last() =~= rest);
        assert(ops.last() == OpView::Return);
    }
    assert(code_in(ops, program) =~= Seq::new(n, |i: int| 0xf3u8));
}

/// Compiling a return of unit, wherever it comes from, adds one return to the section that is being
/// compiled, the byte 0xf3; compiling any other value adds nothing. Nothing else changes.
pub proof fn law_code_of_an_instruction(
    builder: BuilderView,
    value: Value,
    section: SectionView,
    program: Seq<OpView>,
)
    requires
        builder.cur_section == Some(section),
    ensures
        ({
            let after = builder.then_ops(value_ops(builder.context.value(value)));
            let instruction = builder.context.value(value).instruction;
            &&& after == builder.after(Call::CompileInstruction(value))
            &&& after == (BuilderView { cur_section: after.cur_section, ..builder })
            &&& after.cur_section matches Some(longer) && {
                &&& longer.abi == section.abi
                &&& instruction matches Some(Instruction::Ret(_, Type::Unit)) ==> {
                    &&& longer.ops == section.ops.push(OpView::Return)
                    &&& code_in(longer.ops, program) == code_in(section.ops, program).push(0xf3)
                }
                &&& !(instruction matches Some(Instruction::Ret(_, _))) ==> longer.ops
                    == section.ops
            }
        }),
{
    let after = builder.then_ops(value_ops(builder.context.value(value)));
    let longer = after.cur_section->Some_0;
    if builder.context.value(value).instruction matches Some(Instruction::Ret(_, Type::Unit)) {
        assert(longer.ops =~= section.ops.push(OpView::Return));
        assert(longer.ops.drop_last() =~= section.ops);
        assert(code_in(longer.ops, program) =~= code_in(section.ops, program).push(0xf3));
    }
    if !(builder.context.value(value).instruction matches Some(Instruction::Ret(_, _))) {
        assert(longer.ops =~= section.ops);
    }
}

/// A value that is no instruction is reported, and so is an instruction of another machine, each
/// with its place in the source, or that of an unknown place. Nothing else is reported.
pub proof fn law_reports(value: ValueView, span: SpanView)
    requires
        match value.span {
            Some(known) => span == known,
            None => {
                &&& span.src == "unknown source location"@
                &&& span.start == 0
                &&& span.end == 23
                &&& span.path is None
            },
        },
    ensures
        value.instruction is None ==> value_errors(value) == seq![
            ErrorView::Internal("Value not an instruction."@, span),
        ],
        value.instruction == Some(Instruction::FuelVm) ==> value_errors(value) == seq![
            ErrorView::Internal(
                "Invalid FuelVM IR instruction provided to the EVM code gen."@,
                span,
            ),
        ],
        value.instruction is Some && value.instruction != Some(Instruction::FuelVm)
            ==> value_errors(value) == Seq::<ErrorView>::empty(),
{
    reveal_strlit("unknown source location");
    assert("unknown source location"@.len() == 23);
}

/// Instructions of another machine, those that do nothing, returns of unit from an entry function
/// and values that are no instructions can be compiled, wherever they come from.
pub proof fn law_handled_values(value: ValueView, func_is_entry: bool)
    ensures
        value.instruction is None ==> is_handled_value(value, func_is_entry),
        value.instruction == Some(Instruction::FuelVm) ==> is_handled_value(value, func_is_entry),
        value.instruction == Some(Instruction::Nop) ==> is_handled_value(value, func_is_entry),
        func_is_entry && (value.instruction matches Some(Instruction::Ret(_, Type::Unit)))
            ==> is_handled_value(value, func_is_entry),
{
}

/// A block named `entry` gets no label. Any other block has one afterwards, and its declaration,
/// and nothing else, is added to the section that is being compiled.
pub proof fn law_heading_of_a_block(builder: BuilderView, block: Block, section: SectionView)
    requires
        builder.cur_section == Some(section),
        builder.with_heading(block).block_labels.last <= usize::MAX,
    ensures
        ({
            let after = builder.with_heading(block);
            let name = builder.context.block(block).label;
            let labels = after.block_labels.labels;
            &&& name == seq!['e', 'n', 't', 'r', 'y'] ==> after == builder
            &&& name != seq!['e', 'n', 't', 'r', 'y'] ==> {
                &&& labels.contains_key(block.index)
                &&& labels.remove(block.index) == builder.block_labels.labels.remove(block.index)
                &&& after.cur_section matches Some(longer) && {
                    &&& longer.abi == section.abi
                    &&& longer.ops == section.ops.push(
                        OpView::Label(label_name(labels[block.index].0 as nat)),
                    )
                }
                &&& after == (BuilderView {
                    cur_section: after.cur_section,
                    block_labels: after.block_labels,
                    ..builder
                })
            }
        }),
{
    let after = builder.with_heading(block);
    let name = builder.context.block(block).label;
    let labels = after.block_labels.labels;
    reveal_strlit("entry");
    assert("entry"@ =~= seq!['e', 'n', 't', 'r', 'y']);
    if name != "entry"@ {
        assert(labels.remove(block.index) =~= builder.block_labels.labels.remove(block.index));
        assert(after.cur_section->Some_0.ops =~= section.ops.push(
            OpView::Label(label_name(labels[block.index].0 as nat)),
        ));
    }
}

/// At which operation of a function's section the code of the block with number `i` starts, its
/// label, if it has one, before all: behind the three operations of the set-up, the labels of the
/// blocks before it, which all have one but those named `entry`, and their returns.
pub open spec fn block_position(context: ContextView, blocks: Seq<Block>, i: int) -> int
    decreases i,
{
    if i <= 0 {
        3
    } else {
        let block = context.block(blocks[i - 1]);
        let label: int = if block.label == "entry"@ {
            0
        } else {
            1
        };
        block_position(context, blocks, i - 1) + label + returns_in(context, block.instructions)
    }
}

/// How many returns there are in the blocks before the one with number `i`.
pub open spec fn returns_before(context: ContextView, blocks: Seq<Block>, i: int) -> nat
    decreases i,
{
    if i <= 0 {
        0
    } else {
        returns_before(context, blocks, i - 1) + returns_in(
            context,
            context.block(blocks[i - 1]).instructions,
        )
    }
}

proof fn lemma_positions_of_more(context: ContextView, a: Seq<Block>, b: Seq<Block>, i: int)
    requires
        i <= a.len() <= b.len(),
        b.take(a.len() as int) == a,
    ensures
        block_position(context, a, i) == block_position(context, b, i),
        returns_before(context, a, i) == returns_before(context, b, i),
    decreases i,
{
    if i > 0 {
        lemma_positions_of_more(context, a, b, i - 1);
        assert(b.take(a.len() as int)[i - 1] == b[i - 1]);
    }
}

proof fn lemma_positions_grow(context: ContextView, blocks: Seq<Block>, i: int, j: int)
    requires
        0 <= i <= j,
    ensures
        3 <= block_position(context, blocks, i) <= block_position(context, blocks, j),
        i < j && context.block(blocks[i]).label != "entry"@ ==> block_position(context, blocks, i)
            < block_position(context, blocks, j),
    decreases j,
{
    if i < j {
        lemma_positions_grow(context, blocks, i, j - 1);
    } else if i > 0 {
        lemma_positions_grow(context, blocks, i - 1, i - 1);
    }
}

proof fn lemma_blocks_ops_len(context: ContextView, labels: Map<usize, Label>, blocks: Seq<Block>)
    ensures
        blocks_ops(context, labels, blocks).len() == block_position(
            context,
            blocks,
            blocks.len() as int,
        ) - 3,
    decreases blocks.len(),
{
    if blocks.len() > 0 {
        let rest = blocks.drop_last();
        assert(blocks.take(blocks.len() - 1) =~= rest);
        lemma_blocks_ops_len(context, labels, rest);
        lemma_values_ops_count(context, context.block(blocks.last()).instructions);
        lemma_positions_of_more(context, rest, blocks, blocks.len() - 1);
    }
}

/// The code of the block with number `i` stands at the block's position.
proof fn lemma_block_at(
    context: ContextView,
    labels: Map<usize, Label>,
    blocks: Seq<Block>,
    i: int,
    k: int,
)
    requires
        0 <= i < blocks.len(),
        block_position(context, blocks, i) <= k < block_position(context, blocks, i + 1),
    ensures
        0 <= k - 3 < blocks_ops(context, labels, blocks).len(),
        blocks_ops(context, labels, blocks)[k - 3] == if k == block_position(context, blocks, i)
            && context.block(blocks[i]).label != "entry"@ {
            OpView::Label(label_name(labels[blocks[i].index].0 as nat))
        } else {
            OpView::Return
        },
{
    let code = blocks_ops(context, labels, blocks);
    let until = blocks.take(i + 1);
    let part = blocks_ops(context, labels, until);
    let before = blocks_ops(context, labels, blocks.take(i));
    assert(until.drop_last() =~= blocks.take(i));
    assert(until.last() == blocks[i]);
    lemma_blocks_ops_len(context, labels, blocks.take(i));
    lemma_blocks_ops_len(context, labels, until);
    lemma_positions_of_more(context, blocks.take(i), blocks, i);
    lemma_positions_of_more(context, until, blocks, i + 1);
    lemma_positions_grow(context, blocks, i, i);
    lemma_values_ops_count(context, context.block(blocks[i]).instructions);
    lemma_blocks_ops_take(context, labels, blocks, i + 1);
    assert(part == before + heading_ops(context, labels, blocks[i]) + values_ops(
        context,
        context.block(blocks[i]).instructions,
    ));
    assert(code.take(part.len() as int)[k - 3] == code[k - 3]);
}

proof fn lemma_find_block(context: ContextView, blocks: Seq<Block>, n: int, k: int) -> (i: int)
    requires
        0 <= n,
        3 <= k < block_position(context, blocks, n),
    ensures
        0 <= i < n,
        block_position(context, blocks, i) <= k < block_position(context, blocks, i + 1),
    decreases n,
{
    if k < block_position(context, blocks, n - 1) {
        lemma_find_block(context, blocks, n - 1, k)
    } else {
        n - 1
    }
}

proof fn lemma_code_of_blocks(
    context: ContextView,
    labels: Map<usize, Label>,
    blocks: Seq<Block>,
    program: Seq<OpView>,
)
    ensures
        code_in(blocks_ops(context, labels, blocks), program) == Seq::new(
            returns_before(context, blocks, blocks.len() as int),
            |i: int| 0xf3u8,
        ),
    decreases blocks.len(),
{
    let code = blocks_ops(context, labels, blocks);
    if blocks.len() > 0 {
        let n = blocks.len() - 1;
        let rest = blocks.drop_last();
        let values = context.block(blocks.last()).instructions;
        let before = blocks_ops(context, labels, rest);
        let heading = heading_ops(context, labels, blocks.last());
        assert(blocks.take(n) =~= rest);
        lemma_code_of_blocks(context, labels, rest, program);
        lemma_positions_of_more(context, rest, blocks, n);
        law_code_of_instructions(context, values, seq![], program);
        lemma_code_in_add(before + heading, values_ops(context, values), program);
        lemma_code_in_add(before, heading, program);
        if heading.len() > 0 {
            lemma_code_of_one(heading[0], program);
            assert(heading =~= seq![heading[0]]);
        }
        assert(code_in(heading, program) =~= seq![]);
    }
    assert(code_in(code, program) =~= Seq::new(
        returns_before(context, blocks, blocks.len() as int),
        |i: int| 0xf3u8,
    ));
}

/// The section of a function holds its blocks in order, between the set-up and the revert: every
/// block whose name is not `entry` starts with its label, behind which come as many returns as
/// there are return instructions in the block. There is no other label in the section.
pub proof fn law_blocks_stand_in_order(builder: BuilderView, function: Function)
    ensures
        ({
            let after = builder.with_function(function);
            let context = builder.context;
            let blocks = context.function(function).blocks;
            let labels = after.block_labels.labels;
            let ops = after.sections.last().ops;
            &&& ops.len() == block_position(context, blocks, blocks.len() as int) + 3
            &&& ops.take(3) == seq![OpView::Push1(0x80), OpView::Push1(0x40), OpView::MStore]
            &&& ops.skip(ops.len() - 3) == seq![
                OpView::Push1(0x00),
                OpView::Dup1,
                OpView::Revert,
            ]
            &&& forall|i: int|
                0 <= i < blocks.len() && context.block(#[trigger] blocks[i]).label != "entry"@ ==> {
                    &&& labels.contains_key(blocks[i].index)
                    &&& ops[block_position(context, blocks, i)] == OpView::Label(
                        label_name(labels[blocks[i].index].0 as nat),
                    )
                }
            &&& forall|i: int, k: int|
                #![trigger blocks[i], ops[k]]
                0 <= i < blocks.len() && block_position(context, blocks, i + 1) - returns_in(
                    context,
                    context.block(blocks[i]).instructions,
                ) <= k < block_position(context, blocks, i + 1) ==> ops[k] == OpView::Return
            &&& forall|k: int|
                0 <= k < ops.len() && (#[trigger] ops[k] is Label) ==> exists|i: int|
                    0 <= i < blocks.len() && k == block_position(context, blocks, i)
                        && context.block(#[trigger] blocks[i]).label != "entry"@
        }),
{
    let after = builder.with_function(function);
    let context = builder.context;
    let blocks = context.function(function).blocks;
    let labels = after.block_labels.labels;
    let ops = after.sections.last().ops;
    let n = blocks.len() as int;
    let code = blocks_ops(context, labels, blocks);
    lemma_blocks_ops_len(context, labels, blocks);
    lemma_with_all_extends(builder.block_labels, context, blocks);
    assert(ops == setup_ops() + code + trap_ops());
    assert(ops.take(3) =~= setup_ops());
    assert(ops.skip(ops.len() - 3) =~= trap_ops());
    assert forall|i: int|
        0 <= i < blocks.len() && context.block(#[trigger] blocks[i]).label != "entry"@ implies {
        &&& labels.contains_key(blocks[i].index)
        &&& ops[block_position(context, blocks, i)] == OpView::Label(
            label_name(labels[blocks[i].index].0 as nat),
        )
    } by {
        let position = block_position(context, blocks, i);
        lemma_positions_grow(context, blocks, i, i + 1);
        lemma_block_at(context, labels, blocks, i, position);
        assert(ops[position] == code[position - 3]);
    }
    assert forall|i: int, k: int|
        #![trigger blocks[i], ops[k]]
        0 <= i < blocks.len() && block_position(context, blocks, i + 1) - returns_in(
            context,
            context.block(blocks[i]).instructions,
        ) <= k < block_position(context, blocks, i + 1) implies ops[k] == OpView::Return by {
        lemma_positions_grow(context, blocks, i, i);
        lemma_block_at(context, labels, blocks, i, k);
        assert(ops[k] == code[k - 3]);
    }
    assert forall|k: int| 0 <= k < ops.len() && (#[trigger] ops[k] is Label) implies exists|i: int|
        0 <= i < blocks.len() && k == block_position(context, blocks, i) && context.block(
            #[trigger] blocks[i],
        ).label != "entry"@ by {
        assert(3 <= k < ops.len() - 3);
        assert(ops[k] == code[k - 3]);
        let i = lemma_find_block(context, blocks, n, k);
        lemma_block_at(context, labels, blocks, i, k);
        assert(0 <= i < blocks.len() && context.block(blocks[i]).label != "entry"@);
    }
}

/// The machine code of a function is the set-up, as many returns as there are return instructions
/// in its blocks, and the revert. The label of a block stands behind the set-up and the returns of
/// the blocks before it, and that is the position that it stands for.
pub proof fn law_bytes_of_a_function(builder: BuilderView, function: Function)
    ensures
        ({
            let after = builder.with_function(function);
            let context = builder.context;
            let blocks = context.function(function).blocks;
            let labels = after.block_labels.labels;
            let ops = after.sections.last().ops;
            &&& machine_code(ops) == seq![0x60u8, 0x80, 0x60, 0x40, 0x52] + Seq::new(
                returns_before(context, blocks, blocks.len() as int),
                |i: int| 0xf3u8,
            ) + seq![0x60u8, 0x00, 0x80, 0xfd]
            &&& forall|i: int|
                0 <= i < blocks.len() && context.block(#[trigger] blocks[i]).label != "entry"@ ==> {
                    &&& code_len(ops.take(block_position(context, blocks, i))) == 5
                        + returns_before(context, blocks, i)
                    &&& labels_distinct(ops) ==> label_offset(
                        ops,
                        label_name(labels[blocks[i].index].0 as nat),
                    ) == 5 + returns_before(context, blocks, i)
                }
        }),
{
    let after = builder.with_function(function);
    let context = builder.context;
    let blocks = context.function(function).blocks;
    let labels = after.block_labels.labels;
    let ops = after.sections.last().ops;
    let n = blocks.len() as int;
    let code = blocks_ops(context, labels, blocks);
    assert(ops == setup_ops() + code + trap_ops());
    lemma_code_in_add(setup_ops() + code, trap_ops(), ops);
    lemma_code_in_add(setup_ops(), code, ops);
    lemma_setup_code(ops);
    lemma_code_of_blocks(context, labels, blocks, ops);
    assert(code_in(trap_ops(), ops) =~= seq![0x60u8, 0x00, 0x80, 0xfd]) by {
        reveal_with_fuel(code_in, 4);
    }
    law_blocks_stand_in_order(builder, function);
    assert forall|i: int|
        0 <= i < blocks.len() && context.block(#[trigger] blocks[i]).label != "entry"@ implies {
        &&& code_len(ops.take(block_position(context, blocks, i))) == 5 + returns_before(
            context,
            blocks,
            i,
        )
        &&& labels_distinct(ops) ==> label_offset(
            ops,
            label_name(labels[blocks[i].index].0 as nat),
        ) == 5 + returns_before(context, blocks, i)
    } by {
        let position = block_position(context, blocks, i);
        let first = blocks_ops(context, labels, blocks.take(i));
        lemma_positions_grow(context, blocks, i, n);
        lemma_blocks_ops_len(context, labels, blocks.take(i));
        lemma_positions_of_more(context, blocks.take(i), blocks, i);
        lemma_blocks_ops_take(context, labels, blocks, i);
        assert(ops.take(position) =~= setup_ops() + first) by {
            assert(code.take(first.len() as int) =~= first);
            assert forall|k: int| 0 <= k < first.len() implies code[k] == first[k] by {
                assert(code.take(first.len() as int)[k] == code[k]);
            }
        }
        lemma_code_in_add(setup_ops(), first, ops);
        lemma_code_of_blocks(context, labels, blocks.take(i), ops);
        law_code_len_counts_bytes(ops.take(position), ops);
        if labels_distinct(ops) {
            lemma_label_offset(ops, position);
        }
    }
}

proof fn lemma_blocks_ops_take(
    context: ContextView,
    labels: Map<usize, Label>,
    blocks: Seq<Block>,
    i: int,
)
    requires
        0 <= i <= blocks.len(),
    ensures
        blocks_ops(context, labels, blocks.take(i)).is_prefix_of(
            blocks_ops(context, labels, blocks),
        ),
    decreases blocks.len(),
{
    let first = blocks_ops(context, labels, blocks.take(i));
    let code = blocks_ops(context, labels, blocks);
    if i < blocks.len() {
        let rest = blocks.drop_last();
        assert(rest.take(i) =~= blocks.take(i));
        lemma_blocks_ops_take(context, labels, rest, i);
        let before = blocks_ops(context, labels, rest);
        assert(code.take(before.len() as int) =~= before);
        assert(before.take(first.len() as int) =~= first);
        assert(code.take(first.len() as int) =~= first) by {
            assert forall|k: int| 0 <= k < first.len() implies code[k] == first[k] by {
                assert(before.take(first.len() as int)[k] == before[k]);
                assert(code.take(before.len() as int)[k] == code[k]);
            }
        }
    } else {
        assert(blocks.take(i) =~= blocks);
        assert(code.take(code.len() as int) =~= code);
    }
}

/// The assembler is handed one operation for each of the code, in order: the instruction with the
/// opcode of the operation, or a push or a label with its argument.
pub proof fn law_operations_for_the_assembler(ops: Seq<OpView>, i: int)
    requires
        0 <= i < ops.len(),
    ensures
        lowered(ops).len() == ops.len(),
        lowered(ops)[i] == lowered_op(ops[i]),
        match ops[i] {
            OpView::Push1(n) => lowered(ops)[i] == push1_op(n),
            OpView::Push1Label(name) => lowered(ops)[i] == push1_label_op(name),
            OpView::Push(n) => lowered(ops)[i] == push_op(n),
            OpView::Label(name) => lowered(ops)[i] == label_op(name),
            OpView::IsZero => lowered(ops)[i] == plain_op(0x15),
            OpView::CallValue => lowered(ops)[i] == plain_op(0x34),
            OpView::CodeCopy => lowered(ops)[i] == plain_op(0x39),
            OpView::Pop => lowered(ops)[i] == plain_op(0x50),
            OpView::MStore => lowered(ops)[i] == plain_op(0x52),
            OpView::JumpI => lowered(ops)[i] == plain_op(0x57),
            OpView::JumpDest => lowered(ops)[i] == plain_op(0x5b),
            OpView::Dup1 => lowered(ops)[i] == plain_op(0x80),
            OpView::Return => lowered(ops)[i] == plain_op(0xf3),
            OpView::Revert => lowered(ops)[i] == plain_op(0xfd),
            OpView::Invalid => lowered(ops)[i] == plain_op(0xfe),
        },
{
}

/// At which operation of the joined code the section with number `i` starts: behind the sections
/// before it, each with the instruction that separates it from the next.
pub open spec fn section_position(sections: Seq<SectionView>, i: int) -> int
    decreases i,
{
    if i <= 0 {
        0
    } else {
        section_position(sections, i - 1) + sections[i - 1].ops.len() + 1
    }
}

proof fn lemma_section_positions_of_more(sections: Seq<SectionView>, i: int)
    requires
        i < sections.len(),
    ensures
        section_position(sections.drop_last(), i) == section_position(sections, i),
        0 <= section_position(sections, i),
    decreases i,
{
    if i > 0 {
        lemma_section_positions_of_more(sections, i - 1);
        assert(sections.drop_last()[i - 1] == sections[i - 1]);
    }
}

proof fn lemma_joined_ops_len(sections: Seq<SectionView>)
    ensures
        sections.len() == 0 ==> joined_ops(sections).len() == 0,
        sections.len() > 0 ==> joined_ops(sections).len() == section_position(
            sections,
            sections.len() as int,
        ) - 1,
    decreases sections.len(),
{
    if sections.len() == 1 {
        assert(section_position(sections, 0) == 0);
    } else if sections.len() > 1 {
        let rest = sections.drop_last();
        lemma_joined_ops_len(rest);
        lemma_section_positions_of_more(sections, sections.len() - 1);
    }
}

/// The joined code holds the sections in order, whole, with one invalid instruction between each
/// two, and nothing else.
pub proof fn law_sections_stand_in_order(sections: Seq<SectionView>, i: int)
    requires
        0 <= i < sections.len(),
    ensures
        ({
            let body = joined_ops(sections);
            let position = section_position(sections, i);
            let end = position + sections[i].ops.len();
            &&& body.len() == section_position(sections, sections.len() as int) - 1
            &&& 0 <= position <= end <= body.len()
            &&& body.subrange(position, end) == sections[i].ops
            &&& i + 1 < sections.len() ==> end < body.len() && body[end] == OpView::Invalid
        }),
    decreases sections.len(),
{
    let body = joined_ops(sections);
    let position = section_position(sections, i);
    let end = position + sections[i].ops.len();
    lemma_joined_ops_len(sections);
    if sections.len() == 1 {
        assert(section_position(sections, 0) == 0);
        assert(body.subrange(position, end) =~= sections[i].ops);
    } else {
        let rest = sections.drop_last();
        let before = joined_ops(rest);
        lemma_joined_ops_len(rest);
        lemma_section_positions_of_more(sections, sections.len() - 1);
        if i + 1 == sections.len() {
            assert(body.subrange(position, end) =~= sections[i].ops);
        } else {
            lemma_section_positions_of_more(sections, i);
            assert(rest[i] == sections[i]);
            law_sections_stand_in_order(rest, i);
            assert(body.subrange(position, end) =~= before.subrange(position, end));
            if i + 1 < rest.len() {
                assert(body[end] == before[end]);
            } else {
                assert(section_position(sections, i + 1) == end + 1);
            }
        }
    }
}

/// A contract without functions has no code but the constructor's, and the code of one function is
/// that of its section.
pub proof fn law_code_of_no_function(section: SectionView)
    ensures
        joined_ops(seq![]) == Seq::<OpView>::empty(),
        joined_ops(seq![section]) == section.ops,
{
}

/// Calls keep the sections there are, and only compiling a function adds one.
pub proof fn law_sections_are_kept(builder: BuilderView, calls: Seq<Call>)
    ensures
        builder.sections.is_prefix_of(builder.after_all(calls).sections),
        builder.after_all(calls).sections.len() == builder.sections.len() + compiled_functions(
            calls,
        ).len(),
        builder.after_all(calls).context == builder.context,
        builder.after_all(calls).program_kind == builder.program_kind,
    decreases calls.len(),
{
    let n = builder.sections.len() as int;
    if calls.len() > 0 {
        let rest = calls.drop_last();
        law_sections_are_kept(builder, rest);
        let before = builder.after_all(rest).sections;
        let after = builder.after_all(calls).sections;
        assert(after.take(n) =~= before.take(n)) by {
            assert forall|i: int| 0 <= i < n implies after[i] == before[i] by {}
        }
    } else {
        assert(builder.sections.take(n) =~= builder.sections);
    }
}

/// The interface of a contract has one entry for each function that was compiled, in order, with
/// the function's name and no parameters, and one for the constructor behind them.
pub proof fn law_interface_of_the_contract(
    program_kind: ProgramKind,
    context: ContextView,
    calls: Seq<Call>,
)
    ensures
        ({
            let builder = BuilderView::initial(program_kind, context).after_all(calls);
            let functions = compiled_functions(calls);
            let abi = contract_section(builder.sections).abi;
            &&& abi.len() == functions.len() + 1
            &&& abi.last() == constructor_operation(seq![])
            &&& forall|i: int|
                0 <= i < functions.len() ==> #[trigger] abi[i] == function_operation(
                    context.function(functions[i]).name,
                    seq![],
                    seq![],
                    None,
                    fuel_ethabi::StateMutability::NonPayable,
                )
        }),
{
    lemma_joined_abi(program_kind, context, calls);
}

proof fn lemma_joined_abi(program_kind: ProgramKind, context: ContextView, calls: Seq<Call>)
    ensures
        ({
            let builder = BuilderView::initial(program_kind, context).after_all(calls);
            let functions = compiled_functions(calls);
            let abi = joined_abi(builder.sections);
            &&& abi.len() == functions.len()
            &&& forall|i: int|
                0 <= i < functions.len() ==> #[trigger] abi[i] == function_operation(
                    context.function(functions[i]).name,
                    seq![],
                    seq![],
                    None,
                    fuel_ethabi::StateMutability::NonPayable,
                )
        }),
    decreases calls.len(),
{
    if calls.len() > 0 {
        let initial = BuilderView::initial(program_kind, context);
        let rest = calls.drop_last();
        lemma_joined_abi(program_kind, context, rest);
        law_sections_are_kept(initial, rest);
        let before = initial.after_all(rest).sections;
        let after = initial.after_all(calls).sections;
        if let Call::CompileFunction(function) = calls.last() {
            let functions = compiled_functions(calls);
            let abi = joined_abi(after);
            assert(after.drop_last() =~= before);
            assert(abi == joined_abi(before) + after.last().abi);
            assert forall|i: int| 0 <= i < functions.len() implies #[trigger] abi[i]
                == function_operation(
                context.function(functions[i]).name,
                seq![],
                seq![],
                None,
                fuel_ethabi::StateMutability::NonPayable,
            ) by {
                if i < functions.len() - 1 {
                    assert(abi[i] == joined_abi(before)[i]);
                    assert(functions[i] == compiled_functions(rest)[i]);
                }
            }
        }
    }
}

/// A code generator that was just made has compiled nothing and made no label, so that the first
/// label has the number one.
pub proof fn law_nothing_is_compiled_at_first(program_kind: ProgramKind, context: ContextView)
    ensures
        ({
            let initial = BuilderView::initial(program_kind, context);
            &&& initial.program_kind == program_kind
            &&& initial.context == context
            &&& initial.sections.len() == 0
            &&& initial.cur_section is None
            &&& forall|label: Label| !(#[trigger] initial.is_in_use(label))
            &&& initial.hands_out(Call::GetLabel, Label(1))
        }),
{
}

/// A label that is made has the next number. A block without a label gets the next one, and a
/// function without labels the next two, the first for its start and the second for its end. A
/// block or a function that has labels keeps them, and nothing else changes.
pub proof fn law_labels_have_the_next_numbers(
    builder: BuilderView,
    block: Block,
    function: Function,
)
    requires
        builder.block_labels.last + 2 <= usize::MAX,
    ensures
        ({
            let last = builder.block_labels.last;
            let after = builder.with_label();
            &&& after.block_labels.last == last + 1
            &&& after.block_labels.labels == builder.block_labels.labels
            &&& after == (BuilderView { block_labels: after.block_labels, ..builder })
        }),
        ({
            let last = builder.block_labels.last;
            let after = builder.with_block_label(block);
            let labels = after.block_labels.labels;
            &&& after == (BuilderView { block_labels: after.block_labels, ..builder })
            &&& labels.contains_key(block.index)
            &&& labels.remove(block.index) == builder.block_labels.labels.remove(block.index)
            &&& builder.block_labels.labels.contains_key(block.index) ==> after == builder
            &&& !builder.block_labels.labels.contains_key(block.index)
                ==> labels[block.index].0 == last + 1 && after.block_labels.last == last + 1
        }),
        ({
            let last = builder.block_labels.last;
            let after = builder.with_func_labels(function);
            let labels = after.func_labels;
            &&& after == (BuilderView {
                func_labels: labels,
                block_labels: after.block_labels,
                ..builder
            })
            &&& after.block_labels.labels == builder.block_labels.labels
            &&& labels.contains_key(function.index)
            &&& labels.remove(function.index) == builder.func_labels.remove(function.index)
            &&& builder.func_labels.contains_key(function.index) ==> after == builder
            &&& !builder.func_labels.contains_key(function.index)
                ==> labels[function.index].0.0 == last + 1 && labels[function.index].1.0 == last + 2
                && after.block_labels.last == last + 2
        }),
{
    assert(builder.with_block_label(block).block_labels.labels.remove(block.index)
        =~= builder.block_labels.labels.remove(block.index));
    assert(builder.with_func_labels(function).func_labels.remove(function.index)
        =~= builder.func_labels.remove(function.index));
}

/// Compiling a function gives labels to those of its blocks that have none and are not named
/// `entry`, and to no other: the next numbers, without a gap, in the order in which the blocks are
/// listed first.
pub proof fn law_blocks_are_numbered_in_order(builder: BuilderView, function: Function)
    requires
        builder.with_function(function).block_labels.last <= usize::MAX,
    ensures
        ({
            let before = builder.block_labels;
            let after = builder.with_function(function).block_labels;
            let context = builder.context;
            let blocks = context.function(function).blocks;
            &&& before.last <= after.last
            &&& forall|b: usize| #[trigger]
                after.labels.contains_key(b) <==> before.labels.contains_key(b) || exists|i: int|
                    0 <= i < blocks.len() && context.block(#[trigger] blocks[i]).label != "entry"@
                        && blocks[i].index == b
            &&& forall|b: usize| #[trigger]
                after.labels.contains_key(b) ==> if before.labels.contains_key(b) {
                    after.labels[b] == before.labels[b]
                } else {
                    before.last < after.labels[b].0 <= after.last
                }
            &&& forall|n: nat|
                before.last < n <= after.last ==> #[trigger] is_new_number(before, after, n)
            &&& forall|i: int, j: int|
                #![trigger blocks[i], blocks[j]]
                0 <= i < j < blocks.len() && context.block(blocks[i]).label != "entry"@
                    && context.block(blocks[j]).label != "entry"@ && !before.labels.contains_key(
                    blocks[i].index,
                ) && !before.labels.contains_key(blocks[j].index) && !blocks.take(j).contains(
                    blocks[j],
                ) ==> after.labels[blocks[i].index].0 < after.labels[blocks[j].index].0
        }),
{
    let context = builder.context;
    let blocks = context.function(function).blocks;
    lemma_numbers(builder.block_labels, context, blocks);
    let before = builder.block_labels;
    let after = builder.with_function(function).block_labels;
    assert forall|i: int, j: int|
        #![trigger blocks[i], blocks[j]]
        0 <= i < j < blocks.len() && context.block(blocks[i]).label != "entry"@ && context.block(
            blocks[j],
        ).label != "entry"@ && !before.labels.contains_key(blocks[i].index)
            && !before.labels.contains_key(blocks[j].index) && !blocks.take(j).contains(
            blocks[j],
        ) implies after.labels[blocks[i].index].0 < after.labels[blocks[j].index].0 by {
        lemma_numbers_in_order(before, context, blocks, i, j);
    }
}

/// The label with number `n` belongs to a block that had none before.
pub open spec fn is_new_number(before: BlockLabels, after: BlockLabels, n: nat) -> bool {
    exists|b: usize| #[trigger]
        after.labels.contains_key(b) && !before.labels.contains_key(b) && after.labels[b].0 == n
}

proof fn lemma_numbers(before: BlockLabels, context: ContextView, blocks: Seq<Block>)
    requires
        before.with_all(context, blocks).last <= usize::MAX,
    ensures
        ({
            let after = before.with_all(context, blocks);
            &&& before.last <= after.last
            &&& forall|b: usize| #[trigger]
                after.labels.contains_key(b) <==> before.labels.contains_key(b) || exists|i: int|
                    0 <= i < blocks.len() && context.block(#[trigger] blocks[i]).label != "entry"@
                        && blocks[i].index == b
            &&& forall|b: usize| #[trigger]
                after.labels.contains_key(b) ==> if before.labels.contains_key(b) {
                    after.labels[b] == before.labels[b]
                } else {
                    before.last < after.labels[b].0 <= after.last
                }
            &&& forall|n: nat|
                before.last < n <= after.last ==> #[trigger] is_new_number(before, after, n)
        }),
    decreases blocks.len(),
{
    if blocks.len() > 0 {
        let rest = blocks.drop_last();
        let block = blocks.last();
        let middle = before.with_all(context, rest);
        let after = before.with_all(context, blocks);
        lemma_with_all_grows(before, context, blocks, blocks.len() - 1);
        assert(blocks.take(blocks.len() - 1) =~= rest);
        lemma_numbers(before, context, rest);
        assert forall|b: usize| #[trigger]
            after.labels.contains_key(b) <==> before.labels.contains_key(b) || exists|i: int|
                0 <= i < blocks.len() && context.block(#[trigger] blocks[i]).label != "entry"@
                    && blocks[i].index == b by {
            if exists|i: int|
                0 <= i < blocks.len() && context.block(#[trigger] blocks[i]).label != "entry"@
                    && blocks[i].index == b {
                let i = choose|i: int|
                    0 <= i < blocks.len() && context.block(#[trigger] blocks[i]).label != "entry"@
                        && blocks[i].index == b;
                if i < rest.len() {
                    assert(rest[i] == blocks[i]);
                    assert(middle.labels.contains_key(b));
                }
            }
            if after.labels.contains_key(b) && !before.labels.contains_key(b) {
                if middle.labels.contains_key(b) {
                    let i = choose|i: int|
                        0 <= i < rest.len() && context.block(#[trigger] rest[i]).label != "entry"@
                            && rest[i].index == b;
                    assert(blocks[i] == rest[i]);
                } else {
                    assert(blocks[blocks.len() - 1].index == b);
                }
            }
        }
        assert forall|b: usize| #[trigger] after.labels.contains_key(b) implies (
        if before.labels.contains_key(b) {
            after.labels[b] == before.labels[b]
        } else {
            before.last < after.labels[b].0 <= after.last
        }) by {
            if before.labels.contains_key(b) {
                assert(middle.labels.contains_key(b));
            }
        }
        assert forall|n: nat| before.last < n <= after.last implies #[trigger] is_new_number(
            before,
            after,
            n,
        ) by {
            if n <= middle.last {
                assert(is_new_number(before, middle, n));
                let b = choose|b: usize| #[trigger]
                    middle.labels.contains_key(b) && !before.labels.contains_key(b)
                        && middle.labels[b].0 == n;
                assert(after.labels.contains_key(b) && after.labels[b].0 == n);
            } else {
                assert(!before.labels.contains_key(block.index)) by {
                    assert(before.labels.contains_key(block.index)
                        ==> middle.labels.contains_key(block.index));
                }
                assert(after.labels.contains_key(block.index));
            }
        }
    }
}

proof fn lemma_numbers_in_order(
    before: BlockLabels,
    context: ContextView,
    blocks: Seq<Block>,
    i: int,
    j: int,
)
    requires
        before.with_all(context, blocks).last <= usize::MAX,
        0 <= i < j < blocks.len(),
        context.block(blocks[i]).label != "entry"@,
        context.block(blocks[j]).label != "entry"@,
        !before.labels.contains_key(blocks[i].index),
        !before.labels.contains_key(blocks[j].index),
        !blocks.take(j).contains(blocks[j]),
    ensures
        before.with_all(context, blocks).labels[blocks[i].index].0 < before.with_all(
            context,
            blocks,
        ).labels[blocks[j].index].0,
    decreases blocks.len(),
{
    let rest = blocks.drop_last();
    let middle = before.with_all(context, rest);
    lemma_with_all_grows(before, context, blocks, blocks.len() - 1);
    assert(blocks.take(blocks.len() - 1) =~= rest);
    lemma_numbers(before, context, rest);
    assert(rest[i] == blocks[i]);
    assert(middle.labels.contains_key(blocks[i].index));
    if j < rest.len() {
        assert(rest[j] == blocks[j]);
        assert(rest.take(j) =~= blocks.take(j));
        lemma_numbers_in_order(before, context, rest, i, j);
        assert(middle.labels.contains_key(blocks[j].index));
    } else {
        assert(blocks.take(j) =~= rest);
        assert(!middle.labels.contains_key(blocks[j].index)) by {
            if middle.labels.contains_key(blocks[j].index) {
                let k = choose|k: int|
                    0 <= k < rest.len() && context.block(#[trigger] rest[k]).label != "entry"@
                        && rest[k].index == blocks[j].index;
                assert(rest[k] == blocks[j]);
            }
        }
    }
}

/// The operations of a constructor, and its entry in the interface, whatever its two numbers. Only
/// the guard has a label.
pub proof fn law_operations_of_the_constructor(data_size: usize, data_offset: usize)
    ensures
        forall|is_payable: bool|
            {
                let section = #[trigger] constructor_section(is_payable, data_size, data_offset);
                &&& section.ops == constructor_ops(is_payable, data_size, data_offset)
                &&& section.abi == seq![constructor_operation(seq![])]
            },
        constructor_section(false, data_size, data_offset).ops == seq![
            OpView::Push1(0x80),
            OpView::Push1(0x40),
            OpView::MStore,
        ] + seq![
            OpView::Push(data_size),
            OpView::Dup1,
            OpView::Push(data_offset),
            OpView::Push1(0x00),
            OpView::CodeCopy,
            OpView::Push1(0x00),
            OpView::Return,
        ],
        constructor_section(true, data_size, data_offset).ops == seq![
            OpView::Push1(0x80),
            OpView::Push1(0x40),
            OpView::MStore,
        ] + seq![
            OpView::CallValue,
            OpView::Dup1,
            OpView::IsZero,
            OpView::Push1Label("tag_1"@),
            OpView::JumpI,
            OpView::Push1(0x00),
            OpView::Dup1,
            OpView::Revert,
            OpView::Label("tag_1"@),
            OpView::JumpDest,
            OpView::Pop,
        ] + seq![
            OpView::Push(data_size),
            OpView::Dup1,
            OpView::Push(data_offset),
            OpView::Push1(0x00),
            OpView::CodeCopy,
            OpView::Push1(0x00),
            OpView::Return,
        ],
{
}

/// The bytes of a push of a label's position: the position is how many bytes stand before the
/// label.
pub proof fn law_bytes_of_a_reference(program: Seq<OpView>, i: int, name: Seq<char>)
    requires
        labels_distinct(program),
        0 <= i < program.len(),
        program[i] == OpView::Label(name),
    ensures
        code_in(seq![OpView::Push1Label(name)], program) == seq![
            0x60u8,
            code_in(program.take(i), program).len() as u8,
        ],
{
    lemma_code_of_one(OpView::Push1Label(name), program);
    lemma_label_offset(program, i);
    law_code_len_counts_bytes(program.take(i), program);
}

/// An empty section holds nothing.
pub proof fn law_empty_section()
    ensures
        SectionView::empty().ops.len() == 0,
        SectionView::empty().abi.len() == 0,
{
}

/// While no section is being compiled, neither a block named `entry` nor a value changes anything.
pub proof fn law_nothing_is_added_to_no_section(builder: BuilderView, block: Block, value: Value)
    requires
        builder.cur_section is None,
    ensures
        builder.context.block(block).label == "entry"@ ==> builder.with_heading(block) == builder,
        builder.then_ops(value_ops(builder.context.value(value))) == builder,
{
}

} // verus!
