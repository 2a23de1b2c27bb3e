//! What the code generator holds and emits, as mathematical values.
use vstd::prelude::*;

use fuel_ethabi::operation::Operation;
use fuel_ethabi::StateMutability;

use crate::abi::{constructor_operation, function_operation};
use crate::error::{ErrorView, SpanView};
use crate::ir::{Block, BlockView, ContextView, Function, Instruction, Type, Value, ValueView};
use crate::label::{label_name, Label};
use crate::op::{
    assembles, be_bytes, code_len, label_offset, lemma_code_len_add, lemma_label_offset, refers_nowhere,
    OpView,
};

verus! {

/// The kind of program that is compiled.
#[derive(Debug, Clone, Copy, PartialEq, Eq, Structural)]
pub enum ProgramKind {
    Contract,
    Library,
    Predicate,
    Script,
}

/// A section of assembly and the interface entries that belong to it.
#[verifier::ext_equal]
pub struct SectionView {
    pub ops: Seq<OpView>,
    pub abi: Seq<Operation>,
}

impl SectionView {
    pub open spec fn empty() -> SectionView {
        SectionView { ops: seq![], abi: seq![] }
    }

    /// The section with these operations at its end.
    pub open spec fn then_ops(self, ops: Seq<OpView>) -> SectionView {
        SectionView { ops: self.ops + ops, abi: self.abi }
    }
}

/// The labels of blocks, by the block's index, and the number of the label made last.
#[verifier::ext_equal]
pub struct BlockLabels {
    pub labels: Map<usize, Label>,
    pub last: nat,
}

impl BlockLabels {
    /// A block that has no label gets the next one.
    pub open spec fn with(self, block: Block) -> BlockLabels {
        if self.labels.contains_key(block.index) {
            self
        } else {
            BlockLabels {
                labels: self.labels.insert(block.index, Label((self.last + 1) as usize)),
                last: self.last + 1,
            }
        }
    }

    /// Each of the blocks that is not an entry block and has no label gets the next one, in turn.
    pub open spec fn with_all(self, context: ContextView, blocks: Seq<Block>) -> BlockLabels
        decreases blocks.len(),
    {
        if blocks.len() == 0 {
            self
        } else {
            let before = self.with_all(context, blocks.drop_last());
            if is_entry_block(context.block(blocks.last())) {
                before
            } else {
                before.with(blocks.last())
            }
        }
    }
}

/// An entry block is one whose label in the intermediate representation is `entry`.
pub open spec fn is_entry_block(block: BlockView) -> bool {
    block.label == "entry"@
}

/// A call that changes the code generator.
pub enum Call {
    GetLabel,
    FuncToLabels(Function),
    BlockToLabel(Block),
    InsertBlockLabel(Block),
    CompileInstruction(Value),
    CompileFunction(Function),
}

/// The functions that the calls compile, in order.
pub open spec fn compiled_functions(calls: Seq<Call>) -> Seq<Function>
    decreases calls.len(),
{
    if calls.len() == 0 {
        seq![]
    } else {
        let before = compiled_functions(calls.drop_last());
        match calls.last() {
            Call::CompileFunction(function) => before.push(function),
            _ => before,
        }
    }
}

/// The blocks of the functions, one function after the other.
pub open spec fn blocks_of(context: ContextView, functions: Seq<Function>) -> Seq<Block>
    decreases functions.len(),
{
    if functions.len() == 0 {
        seq![]
    } else {
        blocks_of(context, functions.drop_last()) + context.function(functions.last()).blocks
    }
}

/// The state of the code generator.
#[verifier::ext_equal]
pub struct BuilderView {
    pub program_kind: ProgramKind,
    pub context: ContextView,
    /// The sections that are complete, in the order in which they were compiled.
    pub sections: Seq<SectionView>,
    /// The start and end labels of functions, by the function's index.
    pub func_labels: Map<usize, (Label, Label)>,
    pub block_labels: BlockLabels,
    /// The section that is being compiled.
    pub cur_section: Option<SectionView>,
}

impl BuilderView {
    /// Nothing has been compiled and no label has been made.
    pub open spec fn initial(program_kind: ProgramKind, context: ContextView) -> BuilderView {
        BuilderView {
            program_kind,
            context,
            sections: seq![],
            func_labels: Map::empty(),
            block_labels: BlockLabels { labels: Map::empty(), last: 0 },
            cur_section: None,
        }
    }

    /// The labels are told apart, and no complete section refers to a label.
    pub open spec fn wf(self) -> bool {
        &&& self.labels_are_unique()
        &&& forall|i: int|
            0 <= i < self.sections.len() ==> refers_nowhere((#[trigger] self.sections[i]).ops)
    }

    /// The numbers of all labels lie between one and that of the label made last, and no label
    /// belongs to two blocks, to two functions, to a block and a function, or to both ends of a
    /// function.
    pub open spec fn labels_are_unique(self) -> bool {
        let blocks = self.block_labels.labels;
        let last = self.block_labels.last;
        let funcs = self.func_labels;
        &&& last <= usize::MAX
        &&& forall|b: usize| #[trigger] blocks.contains_key(b) ==> 1 <= blocks[b].0 <= last
        &&& forall|f: usize| #[trigger]
            funcs.contains_key(f) ==> {
                &&& 1 <= funcs[f].0.0 <= last
                &&& 1 <= funcs[f].1.0 <= last
                &&& funcs[f].0 != funcs[f].1
            }
        &&& forall|a: usize, b: usize|
            #![trigger blocks.contains_key(a), blocks.contains_key(b)]
            blocks.contains_key(a) && blocks.contains_key(b) && a != b ==> blocks[a] != blocks[b]
        &&& forall|f: usize, b: usize|
            #![trigger funcs.contains_key(f), blocks.contains_key(b)]
            funcs.contains_key(f) && blocks.contains_key(b) ==> funcs[f].0 != blocks[b]
                && funcs[f].1 != blocks[b]
        &&& forall|f: usize, g: usize|
            #![trigger funcs.contains_key(f), funcs.contains_key(g)]
            funcs.contains_key(f) && funcs.contains_key(g) && f != g ==> {
                &&& funcs[f].0 != funcs[g].0
                &&& funcs[f].0 != funcs[g].1
                &&& funcs[f].1 != funcs[g].0
                &&& funcs[f].1 != funcs[g].1
            }
    }

    /// The label belongs to a block or a function.
    pub open spec fn is_in_use(self, label: Label) -> bool {
        ||| exists|b: usize| #[trigger]
            self.block_labels.labels.contains_key(b) && self.block_labels.labels[b] == label
        ||| exists|f: usize| #[trigger]
            self.func_labels.contains_key(f) && (self.func_labels[f].0 == label
                || self.func_labels[f].1 == label)
    }

    /// The label is greater than every label of a block or a function.
    pub open spec fn is_new(self, label: Label) -> bool {
        forall|other: Label| #[trigger] self.is_in_use(other) ==> other.0 < label.0
    }

    /// A label has been made.
    pub open spec fn with_label(self) -> BuilderView {
        BuilderView {
            block_labels: BlockLabels {
                labels: self.block_labels.labels,
                last: self.block_labels.last + 1,
            },
            ..self
        }
    }

    /// A function that has no labels gets the next two.
    pub open spec fn with_func_labels(self, function: Function) -> BuilderView {
        if self.func_labels.contains_key(function.index) {
            self
        } else {
            let last = self.block_labels.last;
            BuilderView {
                func_labels: self.func_labels.insert(
                    function.index,
                    (Label((last + 1) as usize), Label((last + 2) as usize)),
                ),
                ..self.with_label().with_label()
            }
        }
    }

    /// A block that has no label gets the next one.
    pub open spec fn with_block_label(self, block: Block) -> BuilderView {
        BuilderView { block_labels: self.block_labels.with(block), ..self }
    }

    /// The block has a label, which stands at the end of the section that is being compiled. An
    /// entry block gets none.
    pub open spec fn with_heading(self, block: Block) -> BuilderView {
        if is_entry_block(self.context.block(block)) {
            self
        } else {
            let after = self.with_block_label(block);
            after.then_ops(heading_ops(self.context, after.block_labels.labels, block))
        }
    }

    /// The section that is being compiled has these operations at its end.
    pub open spec fn then_ops(self, ops: Seq<OpView>) -> BuilderView {
        BuilderView {
            cur_section: match self.cur_section {
                Some(section) => Some(section.then_ops(ops)),
                None => None,
            },
            ..self
        }
    }

    /// The function is complete: its section is the last, and its blocks have labels.
    pub open spec fn with_function(self, function: Function) -> BuilderView {
        let block_labels = self.block_labels.with_all(
            self.context,
            self.context.function(function).blocks,
        );
        BuilderView {
            sections: self.sections.push(
                function_section(self.context, block_labels.labels, function),
            ),
            block_labels,
            cur_section: None,
            ..self
        }
    }

    /// The state after a call.
    pub open spec fn after(self, call: Call) -> BuilderView {
        match call {
            Call::GetLabel => self.with_label(),
            Call::FuncToLabels(function) => self.with_func_labels(function),
            Call::BlockToLabel(block) => self.with_block_label(block),
            Call::InsertBlockLabel(block) => self.with_heading(block),
            Call::CompileInstruction(value) => self.then_ops(value_ops(self.context.value(value))),
            Call::CompileFunction(function) => self.with_function(function),
        }
    }

    /// The state after the calls, one after the other.
    pub open spec fn after_all(self, calls: Seq<Call>) -> BuilderView
        decreases calls.len(),
    {
        if calls.len() == 0 {
            self
        } else {
            self.after_all(calls.drop_last()).after(calls.last())
        }
    }

    /// The call hands out the label: it returns it, or emits it.
    pub open spec fn hands_out(self, call: Call, label: Label) -> bool {
        let after = self.after(call);
        let labels = after.block_labels.labels;
        match call {
            Call::GetLabel => label.0 == after.block_labels.last,
            Call::FuncToLabels(function) => {
                ||| label == after.func_labels[function.index].0
                ||| label == after.func_labels[function.index].1
            },
            Call::BlockToLabel(block) => label == labels[block.index],
            Call::InsertBlockLabel(block) => {
                &&& !is_entry_block(self.context.block(block))
                &&& label == labels[block.index]
            },
            Call::CompileInstruction(_) => false,
            Call::CompileFunction(function) => {
                let blocks = self.context.function(function).blocks;
                exists|i: int|
                    0 <= i < blocks.len() && !is_entry_block(
                        self.context.block(#[trigger] blocks[i]),
                    ) && label == labels[blocks[i].index]
            },
        }
    }

    /// Every section by itself is a program.
    pub open spec fn sections_assemble(self) -> bool {
        forall|i: int|
            0 <= i < self.sections.len() ==> assembles((#[trigger] self.sections[i]).ops)
    }
}

/// Sets the free memory pointer, which is stored at 0x40, to the start of the memory that can be
/// allocated, 0x80.
pub open spec fn setup_ops() -> Seq<OpView> {
    seq![OpView::Push1(0x80), OpView::Push1(0x40), OpView::MStore]
}

/// Reverts if ether was sent.
pub open spec fn value_guard_ops() -> Seq<OpView> {
    seq![
        OpView::CallValue,
        OpView::Dup1,
        OpView::IsZero,
        OpView::Push1Label("tag_1"@),
        OpView::JumpI,
        OpView::Push1(0x00),
        OpView::Dup1,
        OpView::Revert,
        OpView::Label("tag_1"@),
        OpView::JumpDest,
        OpView::Pop,
    ]
}

/// Copies the `data_size` bytes of code that start at `data_offset` to the start of the memory and
/// returns them.
pub open spec fn copy_ops(data_size: usize, data_offset: usize) -> Seq<OpView> {
    seq![
        OpView::Push(data_size),
        OpView::Dup1,
        OpView::Push(data_offset),
        OpView::Push1(0x00),
        OpView::CodeCopy,
        OpView::Push1(0x00),
        OpView::Return,
    ]
}

/// The operations of a contract's constructor.
pub open spec fn constructor_ops(
    is_payable: bool,
    data_size: usize,
    data_offset: usize,
) -> Seq<OpView> {
    if is_payable {
        setup_ops() + value_guard_ops() + copy_ops(data_size, data_offset)
    } else {
        setup_ops() + copy_ops(data_size, data_offset)
    }
}

/// The section of a contract's constructor, which takes no parameters.
pub open spec fn constructor_section(
    is_payable: bool,
    data_size: usize,
    data_offset: usize,
) -> SectionView {
    SectionView {
        ops: constructor_ops(is_payable, data_size, data_offset),
        abi: seq![constructor_operation(seq![])],
    }
}

/// Reverts, with no data.
pub open spec fn trap_ops() -> Seq<OpView> {
    seq![OpView::Push1(0x00), OpView::Dup1, OpView::Revert]
}

/// The code generator handles the instruction: it emits code for it, or reports it as an error.
/// Of the instructions that return, it handles those that return unit from an entry function.
pub open spec fn is_handled(instruction: Instruction, func_is_entry: bool) -> bool {
    match instruction {
        Instruction::FuelVm => true,
        Instruction::Nop => true,
        Instruction::Ret(_, ty) => func_is_entry && ty == Type::Unit,
        _ => false,
    }
}

/// The code generator handles the value: it is no instruction, or one that is handled.
pub open spec fn is_handled_value(value: ValueView, func_is_entry: bool) -> bool {
    value.instruction matches Some(instruction) ==> is_handled(instruction, func_is_entry)
}

/// The value returns from the function.
pub open spec fn is_return(value: ValueView) -> bool {
    value.instruction matches Some(Instruction::Ret(_, _))
}

/// The operations of an instruction.
pub open spec fn value_ops(value: ValueView) -> Seq<OpView> {
    if is_return(value) {
        seq![OpView::Return]
    } else {
        seq![]
    }
}

/// The place in the source that stands for an unknown one.
pub open spec fn empty_span_view() -> SpanView {
    SpanView {
        src: "unknown source location"@,
        start: 0,
        end: "unknown source location"@.len() as usize,
        path: None,
    }
}

/// The errors that compiling the value reports.
pub open spec fn value_errors(value: ValueView) -> Seq<ErrorView> {
    let span = match value.span {
        Some(span) => span,
        None => empty_span_view(),
    };
    match value.instruction {
        None => seq![ErrorView::Internal("Value not an instruction."@, span)],
        Some(Instruction::FuelVm) => seq![
            ErrorView::Internal(
                "Invalid FuelVM IR instruction provided to the EVM code gen."@,
                span,
            ),
        ],
        _ => seq![],
    }
}

/// The operations of a sequence of instructions.
pub open spec fn values_ops(context: ContextView, values: Seq<Value>) -> Seq<OpView>
    decreases values.len(),
{
    if values.len() == 0 {
        seq![]
    } else {
        values_ops(context, values.drop_last()) + value_ops(context.value(values.last()))
    }
}

/// The label that a block starts with, unless it is an entry block.
pub open spec fn heading_ops(
    context: ContextView,
    labels: Map<usize, Label>,
    block: Block,
) -> Seq<OpView> {
    if is_entry_block(context.block(block)) {
        seq![]
    } else {
        seq![OpView::Label(label_name(labels[block.index].0 as nat))]
    }
}

/// The operations of a sequence of blocks, whose labels `labels` holds.
pub open spec fn blocks_ops(
    context: ContextView,
    labels: Map<usize, Label>,
    blocks: Seq<Block>,
) -> Seq<OpView>
    decreases blocks.len(),
{
    if blocks.len() == 0 {
        seq![]
    } else {
        let block = blocks.last();
        blocks_ops(context, labels, blocks.drop_last()) + heading_ops(context, labels, block)
            + values_ops(context, context.block(block).instructions)
    }
}

/// The section of a function, whose blocks' labels `labels` holds. Its interface entry has the
/// function's name and no parameters.
pub open spec fn function_section(
    context: ContextView,
    labels: Map<usize, Label>,
    function: Function,
) -> SectionView {
    let content = context.function(function);
    SectionView {
        ops: setup_ops() + blocks_ops(context, labels, content.blocks) + trap_ops(),
        abi: seq![
            function_operation(content.name, seq![], seq![], None, StateMutability::NonPayable),
        ],
    }
}

/// The code generator handles the block: the context has its values and each is handled.
pub open spec fn is_handled_block(
    context: ContextView,
    block: Block,
    func_is_entry: bool,
) -> bool {
    &&& context.has_block(block)
    &&& forall|i: int|
        0 <= i < context.block(block).instructions.len() ==> {
            &&& context.has_value(#[trigger] context.block(block).instructions[i])
            &&& is_handled_value(
                context.value(context.block(block).instructions[i]),
                func_is_entry,
            )
        }
}

/// The code generator handles the function: the context has its blocks and each is handled.
pub open spec fn is_handled_function(context: ContextView, function: Function) -> bool {
    let content = context.function(function);
    &&& context.has_function(function)
    &&& forall|i: int|
        0 <= i < content.blocks.len() ==> is_handled_block(
            context,
            #[trigger] content.blocks[i],
            content.is_entry,
        )
}

/// No block but an entry block is listed twice.
pub open spec fn labelled_blocks_are_distinct(context: ContextView, blocks: Seq<Block>) -> bool {
    forall|i: int, j: int|
        #![trigger blocks[i], blocks[j]]
        0 <= i < j < blocks.len() && !is_entry_block(context.block(blocks[i])) ==> blocks[i]
            != blocks[j]
}

/// No block but an entry block is listed twice, neither in one function nor in two.
pub open spec fn blocks_have_one_place(context: ContextView) -> bool {
    let functions = context.functions;
    forall|f: int, g: int, i: int, j: int|
        #![trigger functions[f].blocks[i], functions[g].blocks[j]]
        0 <= f < functions.len() && 0 <= g < functions.len() && 0 <= i < functions[f].blocks.len()
            && 0 <= j < functions[g].blocks.len() && (f != g || i != j) && !is_entry_block(
            context.block(functions[f].blocks[i]),
        ) ==> functions[f].blocks[i] != functions[g].blocks[j]
}

/// The operations of all sections, with an invalid instruction between each two.
pub open spec fn joined_ops(sections: Seq<SectionView>) -> Seq<OpView>
    decreases sections.len(),
{
    if sections.len() == 0 {
        seq![]
    } else if sections.len() == 1 {
        sections[0].ops
    } else {
        joined_ops(sections.drop_last()) + seq![OpView::Invalid] + sections.last().ops
    }
}

/// The interface entries of all sections.
pub open spec fn joined_abi(sections: Seq<SectionView>) -> Seq<Operation>
    decreases sections.len(),
{
    if sections.len() == 0 {
        seq![]
    } else {
        joined_abi(sections.drop_last()) + sections.last().abi
    }
}

/// The constructor that returns the code that follows it, `data_size` bytes.
pub open spec fn deploying_ops(data_size: usize) -> Seq<OpView> {
    let data_offset = code_len(constructor_ops(false, data_size, 0));
    constructor_ops(false, data_size, data_offset as usize)
}

/// The contract: the constructor and the code that it returns.
pub open spec fn contract_section(sections: Seq<SectionView>) -> SectionView {
    let body = joined_ops(sections);
    SectionView {
        ops: deploying_ops(code_len(body) as usize) + body,
        abi: joined_abi(sections).push(constructor_operation(seq![])),
    }
}

/// The constructor is a program, its length depends on the width of its two numbers alone, and
/// the label in its guard has a fixed position.
pub proof fn lemma_constructor_assembles(is_payable: bool, data_size: usize, data_offset: usize)
    ensures
        assembles(constructor_ops(is_payable, data_size, data_offset)),
        code_len(constructor_ops(is_payable, data_size, data_offset)) == (if is_payable {
            26nat
        } else {
            14
        }) + be_bytes(data_size as nat).len() + be_bytes(data_offset as nat).len(),
        is_payable ==> label_offset(
            constructor_ops(is_payable, data_size, data_offset),
            "tag_1"@,
        ) == 0x0f,
{
    let ops = constructor_ops(is_payable, data_size, data_offset);
    let copy = copy_ops(data_size, data_offset);
    reveal_with_fuel(code_len, 13);
    assert(code_len(setup_ops()) == 5);
    assert(code_len(value_guard_ops()) == 12);
    assert(code_len(copy) == 9 + be_bytes(data_size as nat).len() + be_bytes(
        data_offset as nat,
    ).len());
    lemma_code_len_add(setup_ops(), value_guard_ops());
    lemma_code_len_add(setup_ops() + value_guard_ops(), copy);
    lemma_code_len_add(setup_ops(), copy);
    if is_payable {
        assert(ops[11] == OpView::Label("tag_1"@));
        assert forall|i: int| 0 <= i < ops.len() && i != 11 implies !(#[trigger] ops[i] is Label) by {
        }
        lemma_label_offset(ops, 11);
        assert(ops.take(11) =~= setup_ops() + value_guard_ops().take(8));
        lemma_code_len_add(setup_ops(), value_guard_ops().take(8));
        assert(code_len(value_guard_ops().take(8)) == 10);
    }
}

/// The code of blocks refers to no label.
pub proof fn lemma_blocks_ops_refer_nowhere(
    context: ContextView,
    labels: Map<usize, Label>,
    blocks: Seq<Block>,
)
    ensures
        refers_nowhere(blocks_ops(context, labels, blocks)),
    decreases blocks.len(),
{
    if blocks.len() > 0 {
        lemma_blocks_ops_refer_nowhere(context, labels, blocks.drop_last());
        lemma_values_ops_plain(context, context.block(blocks.last()).instructions);
    }
}

/// The code of instructions consists of returns.
pub proof fn lemma_values_ops_plain(context: ContextView, values: Seq<Value>)
    ensures
        forall|i: int|
            0 <= i < values_ops(context, values).len() ==> #[trigger] values_ops(context, values)[i]
                == OpView::Return,
    decreases values.len(),
{
    if values.len() > 0 {
        lemma_values_ops_plain(context, values.drop_last());
    }
}

/// Blocks get labels one by one, so part of the blocks needs no more labels than all of them.
pub proof fn lemma_with_all_grows(
    initial: BlockLabels,
    context: ContextView,
    blocks: Seq<Block>,
    n: int,
)
    requires
        0 <= n <= blocks.len(),
    ensures
        initial.with_all(context, blocks.take(n)).last <= initial.with_all(context, blocks).last,
    decreases blocks.len(),
{
    if n < blocks.len() {
        assert(blocks.drop_last().take(n) =~= blocks.take(n));
        lemma_with_all_grows(initial, context, blocks.drop_last(), n);
    } else {
        assert(blocks.take(n) =~= blocks);
    }
}

/// The blocks that are given labels have one, and those that had one keep it.
pub proof fn lemma_with_all_extends(initial: BlockLabels, context: ContextView, blocks: Seq<Block>)
    ensures
        ({
            let labels = initial.with_all(context, blocks).labels;
            &&& forall|b: usize| #[trigger]
                initial.labels.contains_key(b) ==> labels.contains_key(b) && labels[b]
                    == initial.labels[b]
            &&& forall|i: int|
                0 <= i < blocks.len() && !is_entry_block(context.block(#[trigger] blocks[i]))
                    ==> labels.contains_key(blocks[i].index)
        }),
    decreases blocks.len(),
{
    if blocks.len() > 0 {
        lemma_with_all_extends(initial, context, blocks.drop_last());
        assert forall|i: int|
            0 <= i < blocks.len() && !is_entry_block(
                context.block(#[trigger] blocks[i]),
            ) implies initial.with_all(context, blocks).labels.contains_key(blocks[i].index) by {
            if i < blocks.len() - 1 {
                assert(blocks.drop_last()[i] == blocks[i]);
            }
        }
    }
}

/// The code of blocks depends on the labels of these blocks alone.
pub proof fn lemma_blocks_ops_agree(
    context: ContextView,
    a: Map<usize, Label>,
    b: Map<usize, Label>,
    blocks: Seq<Block>,
)
    requires
        forall|i: int|
            0 <= i < blocks.len() && !is_entry_block(context.block(#[trigger] blocks[i]))
                ==> a[blocks[i].index] == b[blocks[i].index],
    ensures
        blocks_ops(context, a, blocks) == blocks_ops(context, b, blocks),
    decreases blocks.len(),
{
    if blocks.len() > 0 {
        assert forall|i: int|
            0 <= i < blocks.drop_last().len() && !is_entry_block(
                context.block(#[trigger] blocks.drop_last()[i]),
            ) implies a[blocks.drop_last()[i].index] == b[blocks.drop_last()[i].index] by {
            assert(blocks[i] == blocks.drop_last()[i]);
        }
        lemma_blocks_ops_agree(context, a, b, blocks.drop_last());
        assert(blocks.last() == blocks[blocks.len() - 1]);
    }
}

} // verus!
