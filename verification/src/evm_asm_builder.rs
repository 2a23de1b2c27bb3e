//! The code generator for the Ethereum virtual machine.
use std::collections::HashMap;

use vstd::pervasive::unreached;
use vstd::prelude::*;
use vstd::string::*;

use fuel_ethabi::operation::Operation;
use fuel_ethabi::StateMutability;
use fuel_etk_asm::ops::AbstractOp;

use crate::abi::{make_constructor_operation, make_function_operation};
use crate::error::{ok, CompileError, CompileResult, CompileWarning, Span};
use crate::etk::{concrete_size, fixed_size, lower_op, lower_ops, lowered, push_op};
use crate::ir::{Block, Context, Function, Instruction, Type, Value};
use crate::label::Label;
use crate::laws::law_section_assembles_where_blocks_are_distinct;
use crate::model::{
    blocks_ops, constructor_section, contract_section, copy_ops, empty_span_view,
    function_section, is_entry_block, is_handled_block, is_handled_function,
    is_handled_value, is_return, joined_abi, joined_ops, labelled_blocks_are_distinct,
    lemma_blocks_ops_agree, lemma_blocks_ops_refer_nowhere, lemma_constructor_assembles,
    lemma_with_all_extends, lemma_with_all_grows, setup_ops, value_errors, value_guard_ops,
    value_ops, values_ops, BlockLabels, BuilderView, ProgramKind, SectionView,
};
use crate::op::{
    assembles, code_len, lemma_be_bytes_len, lemma_code_len_add, lemma_code_len_push,
    lemma_code_len_take, ops_view, EvmOp, OpView,
};

verus! {

broadcast use vstd::std_specs::hash::group_hash_axioms;

/// A section of assembly and the interface entries that belong to it.
#[derive(Debug)]
pub struct EvmAsmSection {
    ops: Vec<EvmOp>,
    abi: Vec<Operation>,
}

impl View for EvmAsmSection {
    type V = SectionView;

    closed spec fn view(&self) -> SectionView {
        SectionView { ops: ops_view(self.ops@), abi: self.abi@ }
    }
}

/// How many bytes an operation takes in the code.
fn op_size(op: &EvmOp) -> (res: usize)
    ensures
        res == op@.len(),
{
    let lowered = lower_op(op);
    match fixed_size(&lowered) {
        Some(size) => size,
        None => {
            let ghost n = op@->Push_0;
            assert(lowered == push_op(n));
            proof {
                lemma_be_bytes_len(n);
            }
            concrete_size(lowered).unwrap()
        },
    }
}

impl Default for EvmAsmSection {
    fn default() -> (res: EvmAsmSection)
        ensures
            res@ == SectionView::empty(),
    {
        let res = EvmAsmSection { ops: Vec::new(), abi: Vec::new() };
        assert(res@ =~= SectionView::empty());
        res
    }
}

impl EvmAsmSection {
    /// An empty section.
    pub fn new() -> (res: EvmAsmSection)
        ensures
            res@ == SectionView::empty(),
    {
        Self::default()
    }

    /// How many bytes the section takes in the code: the sum of the sizes of its operations.
    pub fn size(&self) -> (res: usize)
        requires
            assembles(self@.ops),
            code_len(self@.ops) <= usize::MAX,
        ensures
            res == code_len(self@.ops),
    {
        let mut size: usize = 0;
        let ghost ops = self@.ops;
        for i in 0..self.ops.len()
            invariant
                ops == ops_view(self.ops@),
                size == code_len(ops.take(i as int)),
                code_len(ops) <= usize::MAX,
        {
            proof {
                assert(ops.take(i + 1) =~= ops.take(i as int).push(ops[i as int]));
                lemma_code_len_push(ops.take(i as int), ops[i as int]);
                lemma_code_len_take(ops, i + 1);
            }
            size = size + op_size(&self.ops[i]);
        }
        assert(ops.take(ops.len() as int) =~= ops);
        size
    }

    /// The section's operations, as the assembler takes them.
    pub fn lower(&self) -> (res: Vec<AbstractOp>)
        ensures
            res@ == lowered(self@.ops),
    {
        lower_ops(&self.ops)
    }

    /// Appends an operation.
    fn push_op(&mut self, op: EvmOp)
        ensures
            final(self)@ == old(self)@.then_ops(seq![op@]),
    {
        self.ops.push(op);
        assert(self@ =~= old(self)@.then_ops(seq![op@]));
    }

    /// Appends the operations of another section.
    fn append_ops(&mut self, other: &EvmAsmSection)
        ensures
            final(self)@ == old(self)@.then_ops(other@.ops),
    {
        for i in 0..other.ops.len()
            invariant
                self@ == old(self)@.then_ops(other@.ops.take(i as int)),
        {
            self.push_op(other.ops[i].clone());
            assert(self@ =~= old(self)@.then_ops(other@.ops.take(i + 1)));
        }
        assert(self@ =~= old(self)@.then_ops(other@.ops));
    }
}

/// The operations of the first `n` sections and of the separator behind them, if more follow.
spec fn started_ops(sections: Seq<SectionView>, n: int) -> Seq<OpView> {
    if 0 < n < sections.len() {
        joined_ops(sections.take(n)).push(OpView::Invalid)
    } else {
        joined_ops(sections.take(n))
    }
}

proof fn lemma_started_ops(sections: Seq<SectionView>, n: int)
    requires
        0 <= n < sections.len(),
    ensures
        started_ops(sections, n + 1) == if n + 1 < sections.len() {
            (started_ops(sections, n) + sections[n].ops).push(OpView::Invalid)
        } else {
            started_ops(sections, n) + sections[n].ops
        },
{
    let taken = sections.take(n + 1);
    assert(taken.drop_last() =~= sections.take(n));
    assert(taken.last() == sections[n]);
    assert(joined_ops(taken) =~= started_ops(sections, n) + sections[n].ops);
}

proof fn lemma_started_ops_len(sections: Seq<SectionView>, n: int)
    requires
        0 <= n <= sections.len(),
    ensures
        code_len(started_ops(sections, n)) <= code_len(joined_ops(sections)),
    decreases sections.len() - n,
{
    if n < sections.len() {
        lemma_started_ops(sections, n);
        lemma_code_len_add(started_ops(sections, n), sections[n].ops);
        lemma_code_len_push(started_ops(sections, n) + sections[n].ops, OpView::Invalid);
        lemma_started_ops_len(sections, n + 1);
    } else {
        assert(sections.take(n) =~= sections);
    }
}

/// What the code generator hands out: the contract's operations and its interface.
pub struct EvmAsmBuilderResult {
    pub ops: Vec<AbstractOp>,
    pub ops_runtime: Vec<AbstractOp>,
    pub abi: EvmAbiResult,
}

/// The interface of a contract.
pub type EvmAbiResult = Vec<Operation>;

/// What a code generator hands out.
pub enum AsmBuilderResult {
    Evm(EvmAsmBuilderResult),
}

/// A code generator: it hands out labels for functions, compiles functions one by one, and hands
/// out the program at the end.
pub trait AsmBuilder {
    /// A label can be handed out for each end of the function.
    spec fn can_label(&self, func: Function) -> bool;

    /// The function can be compiled.
    spec fn can_compile(&self, function: Function) -> bool;

    /// The program can be handed out.
    spec fn can_finalize(&self) -> bool;

    /// `after` is `self` once the labels `labels` were handed out for the function.
    spec fn labels_handed_out(&self, func: Function, labels: (Label, Label), after: &Self) -> bool;

    /// `after` is `self` once the function was compiled, with the outcome `res`.
    spec fn is_compiled(
        &self,
        function: Function,
        res: CompileResult<()>,
        after: &Self,
    ) -> bool;

    /// `res` is the program.
    spec fn is_finalized(&self, res: AsmBuilderResult) -> bool;

    fn func_to_labels(&mut self, func: &Function) -> (res: (Label, Label))
        requires
            old(self).can_label(*func),
        ensures
            old(self).labels_handed_out(*func, res, final(self)),
    ;

    fn compile_function(&mut self, function: Function) -> (res: CompileResult<()>)
        requires
            old(self).can_compile(function),
        ensures
            old(self).is_compiled(function, res, final(self)),
    ;

    fn finalize(&self) -> (res: AsmBuilderResult)
        requires
            self.can_finalize(),
        ensures
            self.is_finalized(res),
    ;
}

/// The code generator for the Ethereum virtual machine.
///
/// A smart contract is created by a transaction whose code is run once. What that run returns is
/// the code that is stored on the blockchain, under the address of the new contract. The code can
/// refer to itself: `CODECOPY` copies a part of it to the memory, and `RETURN` returns a part of
/// the memory.
///
/// So the code that the code generator hands out has two parts: the constructor, which is run when
/// the contract is created and is not stored, and behind it the code of the functions, which the
/// constructor returns.
pub struct EvmAsmBuilder<'ir> {
    program_kind: ProgramKind,
    sections: Vec<EvmAsmSection>,
    // The label maps are from the index of a function or a block to its labels. Functions have a
    // start and an end label.
    func_label_map: HashMap<usize, (Label, Label)>,
    block_label_map: HashMap<usize, Label>,
    // The program that is compiled.
    context: &'ir Context,
    // The number of the label that was made last.
    label_idx: usize,
    // The section that is being compiled.
    cur_section: Option<EvmAsmSection>,
}

impl<'ir> View for EvmAsmBuilder<'ir> {
    type V = BuilderView;

    closed spec fn view(&self) -> BuilderView {
        BuilderView {
            program_kind: self.program_kind,
            context: self.context@,
            sections: self.sections@.map_values(|section: EvmAsmSection| section@),
            func_labels: self.func_label_map@,
            block_labels: BlockLabels {
                labels: self.block_label_map@,
                last: self.label_idx as nat,
            },
            cur_section: match self.cur_section {
                Some(section) => Some(section@),
                None => None,
            },
        }
    }
}

impl<'ir> EvmAsmBuilder<'ir> {
    /// A code generator that has compiled nothing yet.
    pub fn new(program_kind: ProgramKind, context: &'ir Context) -> (res: EvmAsmBuilder<'ir>)
        ensures
            res@ == BuilderView::initial(program_kind, context@),
            res@.wf(),
    {
        let res = EvmAsmBuilder {
            program_kind,
            sections: Vec::new(),
            func_label_map: HashMap::new(),
            block_label_map: HashMap::new(),
            context,
            label_idx: 0,
            cur_section: None,
        };
        assert(res@.sections =~= seq![]);
        res
    }

    fn setup_free_memory_pointer(&self, s: &mut EvmAsmSection)
        ensures
            final(s)@ == old(s)@.then_ops(setup_ops()),
    {
        // The "free memory pointer" is stored at position 0x40 in memory. The first 64 bytes of
        // memory can be used as "scratch space" for short-term allocation. The 32 bytes after the
        // free memory pointer (i.e., starting at 0x60) are meant to be zero permanently. This means
        // that the allocatable memory starts at 0x80, which is the initial value of the free memory
        // pointer.
        s.push_op(EvmOp::Push1(0x80));
        s.push_op(EvmOp::Push1(0x40));
        s.push_op(EvmOp::MStore);
        assert(s@ =~= old(s)@.then_ops(setup_ops()));
    }

    fn copy_contract_code_to_memory(
        &self,
        s: &mut EvmAsmSection,
        data_size: usize,
        data_offset: usize,
    )
        ensures
            final(s)@ == old(s)@.then_ops(copy_ops(data_size, data_offset)),
    {
        // Copy the code into memory, and return it.
        s.push_op(EvmOp::Push(data_size));
        s.push_op(EvmOp::Dup1);
        s.push_op(EvmOp::Push(data_offset));
        s.push_op(EvmOp::Push1(0x00));
        s.push_op(EvmOp::CodeCopy);
        s.push_op(EvmOp::Push1(0x00));
        s.push_op(EvmOp::Return);
        assert(s@ =~= old(s)@.then_ops(copy_ops(data_size, data_offset)));
    }

    /// The section of the constructor: it sets up the memory, reverts if it `is_payable` and ether
    /// was sent, and returns the `data_size` bytes of code that start at `data_offset`.
    pub fn generate_constructor(
        &self,
        is_payable: bool,
        data_size: usize,
        data_offset: usize,
    ) -> (res: EvmAsmSection)
        ensures
            res@ == constructor_section(is_payable, data_size, data_offset),
    {
        let mut s = EvmAsmSection::new();
        self.setup_free_memory_pointer(&mut s);
        if is_payable {
            // Get the amount of ether that was sent, and revert unless it is zero.
            s.push_op(EvmOp::CallValue);
            s.push_op(EvmOp::Dup1);
            s.push_op(EvmOp::IsZero);
            s.push_op(EvmOp::Push1Label("tag_1".to_owned()));
            s.push_op(EvmOp::JumpI);
            s.push_op(EvmOp::Push1(0x00));
            s.push_op(EvmOp::Dup1);
            s.push_op(EvmOp::Revert);
            s.push_op(EvmOp::Label("tag_1".to_owned()));
            s.push_op(EvmOp::JumpDest);
            s.push_op(EvmOp::Pop);
            assert(s@.ops =~= setup_ops() + value_guard_ops());
        }
        self.copy_contract_code_to_memory(&mut s, data_size, data_offset);
        s.abi.push(make_constructor_operation(Vec::new()));
        assert(s@ =~= constructor_section(is_payable, data_size, data_offset));
        s
    }

    fn empty_span() -> (res: Span)
        ensures
            res@ == empty_span_view(),
    {
        let msg = "unknown source location";
        proof {
            reveal_strlit("unknown source location");
            assert(is_ascii(msg));
        }
        Span { src: msg.to_owned(), start: 0, end: msg.len(), path: None }
    }

    /// A label that was not handed out before: the next one.
    pub fn get_label(&mut self) -> (res: Label)
        requires
            old(self)@.block_labels.last < usize::MAX,
        ensures
            final(self)@ == old(self)@.with_label(),
            res.0 == final(self)@.block_labels.last,
            old(self)@.wf() ==> final(self)@.wf() && old(self)@.is_new(res),
    {
        self.label_idx = self.label_idx + 1;
        Label(self.label_idx)
    }

    /// The start and end labels of a function. A function that has none gets the next two.
    pub fn func_to_labels(&mut self, func: &Function) -> (res: (Label, Label))
        requires
            old(self)@.wf(),
            old(self)@.with_func_labels(*func).block_labels.last <= usize::MAX,
        ensures
            final(self)@ == old(self)@.with_func_labels(*func),
            final(self)@.wf(),
            res == final(self)@.func_labels[func.index],
    {
        match self.func_label_map.get(&func.index) {
            Some(labels) => *labels,
            None => {
                let start = self.get_label();
                let end = self.get_label();
                self.func_label_map.insert(func.index, (start, end));
                (start, end)
            },
        }
    }

    /// The label of a block. A block that has none gets the next one.
    pub fn block_to_label(&mut self, block: &Block) -> (res: Label)
        requires
            old(self)@.wf(),
            old(self)@.with_block_label(*block).block_labels.last <= usize::MAX,
        ensures
            final(self)@ == old(self)@.with_block_label(*block),
            final(self)@.wf(),
            res == final(self)@.block_labels.labels[block.index],
    {
        match self.block_label_map.get(&block.index) {
            Some(label) => *label,
            None => {
                let label = self.get_label();
                self.block_label_map.insert(block.index, label);
                label
            },
        }
    }

    /// Appends an operation to the section that is being compiled.
    fn emit(&mut self, op: EvmOp)
        requires
            old(self)@.cur_section is Some,
        ensures
            final(self)@ == old(self)@.then_ops(seq![op@]),
    {
        if let Some(section) = &mut self.cur_section {
            section.push_op(op);
        }
    }

    /// Appends the label of a block, unless it is an entry block.
    pub fn insert_block_label(&mut self, block: Block)
        requires
            old(self)@.wf(),
            old(self)@.context.has_block(block),
            !is_entry_block(old(self)@.context.block(block)) ==> {
                &&& old(self)@.cur_section is Some
                &&& old(self)@.with_block_label(block).block_labels.last <= usize::MAX
            },
        ensures
            final(self)@.wf(),
            final(self)@ == old(self)@.with_heading(block),
    {
        if !self.context.blocks[block.index].label.eq(&"entry".to_owned()) {
            let label = self.block_to_label(&block);
            self.emit(EvmOp::Label(label.to_string()));
        }
    }

    fn compile_ret_from_entry(&mut self, _instr_val: &Value, _ret_val: &Value, ret_type: &Type)
        requires
            *ret_type == Type::Unit,
            old(self)@.cur_section is Some,
        ensures
            final(self)@ == old(self)@.then_ops(seq![OpView::Return]),
    {
        if ret_type.is_unit() {
            self.emit(EvmOp::Return);
        }
    }

    /// The place in the source that a value comes from.
    fn val_to_span(&self, val: &Value) -> (res: Span)
        requires
            self@.context.has_value(*val),
        ensures
            res@ == match self@.context.value(*val).span {
                Some(span) => span,
                None => empty_span_view(),
            },
    {
        match &self.context.values[val.index].span {
            Some(span) => span.clone(),
            None => Self::empty_span(),
        }
    }

    /// Appends the operations of an instruction, or reports that there are none for it.
    pub fn compile_instruction(&mut self, instr_val: &Value, func_is_entry: bool) -> (res:
        CompileResult<()>)
        requires
            old(self)@.wf(),
            old(self)@.context.has_value(*instr_val),
            is_handled_value(old(self)@.context.value(*instr_val), func_is_entry),
            is_return(old(self)@.context.value(*instr_val)) ==> old(self)@.cur_section is Some,
        ensures
            final(self)@.wf(),
            final(self)@ == old(self)@.then_ops(value_ops(old(self)@.context.value(*instr_val))),
            res.value == Some(()),
            res.warnings@ == Seq::<CompileWarning>::empty(),
            res.error_views() == value_errors(old(self)@.context.value(*instr_val)),
    {
        let warnings: Vec<CompileWarning> = Vec::new();
        let mut errors: Vec<CompileError> = Vec::new();
        let ghost value = self@.context.value(*instr_val);
        match self.context.values[instr_val.index].instruction {
            Some(instruction) => match instruction {
                Instruction::FuelVm => {
                    errors.push(
                        CompileError::Internal(
                            "Invalid FuelVM IR instruction provided to the EVM code gen.",
                            self.val_to_span(instr_val),
                        ),
                    );
                },
                Instruction::Nop => (),
                Instruction::Ret(ret_val, ty) => {
                    if func_is_entry {
                        self.compile_ret_from_entry(instr_val, &ret_val, &ty)
                    } else {
                        unreached()
                    }
                },
                // The code generator does not handle these yet.
                Instruction::AddrOf
                | Instruction::AsmBlock
                | Instruction::BitCast
                | Instruction::BinaryOp
                | Instruction::Branch
                | Instruction::Call
                | Instruction::CastPtr
                | Instruction::Cmp
                | Instruction::ConditionalBranch
                | Instruction::ContractCall
                | Instruction::ExtractElement
                | Instruction::ExtractValue
                | Instruction::GetLocal
                | Instruction::InsertElement
                | Instruction::InsertValue
                | Instruction::IntToPtr
                | Instruction::Load
                | Instruction::MemCopy
                | Instruction::Store => unreached(),
            },
            None => {
                errors.push(
                    CompileError::Internal(
                        "Value not an instruction.",
                        self.val_to_span(instr_val),
                    ),
                );
            },
        }
        let res = ok((), warnings, errors);
        proof {
            assert(res.error_views() =~= value_errors(value));
            assert(self@ =~= old(self)@.then_ops(value_ops(value)));
        }
        res
    }

    /// Compiles the instructions of a block.
    fn compile_block(&mut self, block: Block, func_is_entry: bool)
        requires
            old(self)@.wf(),
            old(self)@.cur_section is Some,
            is_handled_block(old(self)@.context, block, func_is_entry),
        ensures
            final(self)@.wf(),
            final(self)@ == old(self)@.then_ops(
                values_ops(
                    old(self)@.context,
                    old(self)@.context.block(block).instructions,
                ),
            ),
    {
        let context = self.context;
        let instructions = &context.blocks[block.index].instructions;
        assert(self@ =~= old(self)@.then_ops(values_ops(self@.context, seq![])));
        assert(instructions@.take(0) =~= seq![]);
        for i in 0..instructions.len()
            invariant
                instructions@ == old(self)@.context.block(block).instructions,
                is_handled_block(old(self)@.context, block, func_is_entry),
                old(self)@.cur_section is Some,
                self@.wf(),
                self@ == old(self)@.then_ops(
                    values_ops(old(self)@.context, instructions@.take(i as int)),
                ),
        {
            // What an instruction reports is not part of what its function reports.
            let _ = self.compile_instruction(&instructions[i], func_is_entry);
            proof {
                assert(instructions@.take(i + 1).drop_last() =~= instructions@.take(i as int));
                assert(self@ =~= old(self)@.then_ops(
                    values_ops(old(self)@.context, instructions@.take(i + 1)),
                ));
            }
        }
        assert(instructions@.take(instructions@.len() as int) =~= instructions@);
    }

    /// Compiles a function to a section of its own.
    ///
    /// The section starts with the set-up of the memory and ends with a revert, which is reached
    /// if the function's code does not return.
    pub fn compile_function(&mut self, function: Function) -> (res: CompileResult<()>)
        requires
            old(self)@.wf(),
            is_handled_function(old(self)@.context, function),
            old(self)@.with_function(function).block_labels.last <= usize::MAX,
        ensures
            final(self)@.wf(),
            final(self)@ == old(self)@.with_function(function),
            old(self)@.sections_assemble() && labelled_blocks_are_distinct(
                old(self)@.context,
                old(self)@.context.function(function).blocks,
            ) ==> final(self)@.sections_assemble(),
            res.value == Some(()),
            res.warnings@ == Seq::<CompileWarning>::empty(),
            res.errors@ == Seq::<CompileError>::empty(),
    {
        let context = self.context;
        let content = &context.functions[function.index];
        let ghost initial = self@.block_labels;
        let ghost blocks = content.blocks@;

        let mut section = EvmAsmSection::new();
        self.setup_free_memory_pointer(&mut section);
        self.cur_section = Some(section);

        assert(blocks.take(0) =~= seq![]);
        for i in 0..content.blocks.len()
            invariant
                content@ == old(self)@.context.function(function),
                blocks == content.blocks@,
                initial == old(self)@.block_labels,
                is_handled_function(old(self)@.context, function),
                initial.with_all(old(self)@.context, blocks).last <= usize::MAX,
                self@.wf(),
                self@ == (BuilderView {
                    block_labels: initial.with_all(old(self)@.context, blocks.take(i as int)),
                    cur_section: Some(
                        SectionView {
                            ops: setup_ops() + blocks_ops(
                                old(self)@.context,
                                self@.block_labels.labels,
                                blocks.take(i as int),
                            ),
                            abi: seq![],
                        },
                    ),
                    ..old(self)@
                }),
        {
            let block = content.blocks[i];
            let ghost before = self@;
            proof {
                assert(old(self)@.context.function(function).blocks[i as int] == block);
                assert(blocks.take(i + 1).drop_last() =~= blocks.take(i as int));
                lemma_with_all_grows(initial, before.context, blocks, i + 1);
                lemma_with_all_extends(initial, before.context, blocks.take(i as int));
                lemma_blocks_ops_agree(
                    before.context,
                    before.block_labels.labels,
                    before.block_labels.with(block).labels,
                    blocks.take(i as int),
                );
            }
            self.insert_block_label(block);
            self.compile_block(block, content.is_entry);
            proof {
                assert(self@.cur_section->Some_0.ops =~= setup_ops() + blocks_ops(
                    old(self)@.context,
                    self@.block_labels.labels,
                    blocks.take(i + 1),
                ));
            }
        }
        assert(blocks.take(blocks.len() as int) =~= blocks);

        self.emit(EvmOp::Push1(0x00));
        self.emit(EvmOp::Dup1);
        self.emit(EvmOp::Revert);

        // Generate the ABI.
        let operation = make_function_operation(
            content.name.clone(),
            Vec::new(),
            Vec::new(),
            None,
            StateMutability::NonPayable,
        );
        let ghost compiled = self@;
        if let Some(mut section) = self.cur_section.take() {
            section.abi.push(operation);
            assert(section@ =~= function_section(
                old(self)@.context,
                compiled.block_labels.labels,
                function,
            ));
            self.sections.push(section);
        }
        assert(self@.sections =~= old(self)@.with_function(function).sections);
        proof {
            assert(self@ =~= old(self)@.with_function(function));
            lemma_blocks_ops_refer_nowhere(
                compiled.context,
                compiled.block_labels.labels,
                blocks,
            );
            law_section_assembles_where_blocks_are_distinct(old(self)@, function);
        }

        ok((), Vec::new(), Vec::new())
    }

    /// The contract: its constructor, and the code of all functions that were compiled, which the
    /// constructor returns.
    pub fn generate_contract(&self) -> (res: EvmAsmSection)
        requires
            self@.sections_assemble(),
            code_len(joined_ops(self@.sections)) <= usize::MAX,
        ensures
            res@ == contract_section(self@.sections),
    {
        let mut global = EvmAsmSection::new();
        let mut size: usize = 0;
        let ghost sections = self@.sections;
        let ghost body = joined_ops(sections);

        assert(sections.take(0) =~= seq![]);
        for i in 0..self.sections.len()
            invariant
                sections == self@.sections,
                self@.sections_assemble(),
                body == joined_ops(sections),
                code_len(body) <= usize::MAX,
                global@.ops == started_ops(sections, i as int),
                global@.abi == joined_abi(sections.take(i as int)),
                size == code_len(global@.ops),
        {
            let section = &self.sections[i];
            proof {
                assert(sections[i as int] == section@);
                lemma_started_ops(sections, i as int);
                lemma_started_ops_len(sections, i + 1);
                lemma_code_len_add(global@.ops, section@.ops);
                lemma_code_len_push(global@.ops + section@.ops, OpView::Invalid);
            }
            size = size + section.size();
            global.append_ops(section);
            let mut abi = section.abi.clone();
            assert(abi@ =~= section.abi@);
            global.abi.append(&mut abi);
            if i + 1 < self.sections.len() {
                size = size + op_size(&EvmOp::Invalid);
                global.push_op(EvmOp::Invalid);
            }
            proof {
                assert(sections.take(i + 1).drop_last() =~= sections.take(i as int));
                assert(global@.ops =~= started_ops(sections, i + 1));
            }
        }
        assert(sections.take(sections.len() as int) =~= sections);

        // First generate a dummy constructor to calculate its size.
        proof {
            lemma_constructor_assembles(false, size, 0);
            lemma_be_bytes_len(size);
            lemma_be_bytes_len(0);
        }
        let dummy = self.generate_constructor(false, size, 0);

        // Generate the actual constructor with the correct size.
        let mut ctor = self.generate_constructor(false, size, dummy.size());
        ctor.append_ops(&global);
        let mut abi = global.abi;
        abi.append(&mut ctor.abi);
        ctor.abi = abi;
        assert(ctor@ =~= contract_section(sections));
        ctor
    }

    /// The contract, as operations that the assembler takes.
    pub fn finalize(&self) -> (res: AsmBuilderResult)
        requires
            self@.sections_assemble(),
            code_len(joined_ops(self@.sections)) <= usize::MAX,
        ensures
            res matches AsmBuilderResult::Evm(evm) && {
                &&& evm.ops@ == lowered(contract_section(self@.sections).ops)
                &&& evm.ops_runtime@ == evm.ops@
                &&& evm.abi@ == contract_section(self@.sections).abi
            },
    {
        let contract = self.generate_contract();
        AsmBuilderResult::Evm(
            EvmAsmBuilderResult {
                ops: contract.lower(),
                ops_runtime: contract.lower(),
                abi: contract.abi,
            },
        )
    }
}

impl<'ir> AsmBuilder for EvmAsmBuilder<'ir> {
    open spec fn can_label(&self, func: Function) -> bool {
        &&& self@.wf()
        &&& self@.with_func_labels(func).block_labels.last <= usize::MAX
    }

    open spec fn can_compile(&self, function: Function) -> bool {
        &&& self@.wf()
        &&& is_handled_function(self@.context, function)
        &&& self@.with_function(function).block_labels.last <= usize::MAX
    }

    open spec fn can_finalize(&self) -> bool {
        &&& self@.sections_assemble()
        &&& code_len(joined_ops(self@.sections)) <= usize::MAX
    }

    open spec fn labels_handed_out(
        &self,
        func: Function,
        labels: (Label, Label),
        after: &Self,
    ) -> bool {
        &&& after@ == self@.with_func_labels(func)
        &&& after@.wf()
        &&& labels == after@.func_labels[func.index]
    }

    open spec fn is_compiled(
        &self,
        function: Function,
        res: CompileResult<()>,
        after: &Self,
    ) -> bool {
        &&& after@ == self@.with_function(function)
        &&& after@.wf()
        &&& self@.sections_assemble() && labelled_blocks_are_distinct(
            self@.context,
            self@.context.function(function).blocks,
        ) ==> after@.sections_assemble()
        &&& res.value == Some(())
        &&& res.warnings@ == Seq::<CompileWarning>::empty()
        &&& res.errors@ == Seq::<CompileError>::empty()
    }

    open spec fn is_finalized(&self, res: AsmBuilderResult) -> bool {
        res matches AsmBuilderResult::Evm(evm) && {
            &&& evm.ops@ == lowered(contract_section(self@.sections).ops)
            &&& evm.ops_runtime@ == evm.ops@
            &&& evm.abi@ == contract_section(self@.sections).abi
        }
    }

    fn func_to_labels(&mut self, func: &Function) -> (res: (Label, Label)) {
        self.func_to_labels(func)
    }

    fn compile_function(&mut self, function: Function) -> (res: CompileResult<()>) {
        self.compile_function(function)
    }

    fn finalize(&self) -> (res: AsmBuilderResult) {
        self.finalize()
    }
}

/// What the code generator does through its trait is what it does by itself.
pub proof fn law_trait_agrees(
    builder: EvmAsmBuilder,
    after: EvmAsmBuilder,
    function: Function,
    labels: (Label, Label),
    outcome: CompileResult<()>,
    evm: EvmAsmBuilderResult,
)
    ensures
        builder.labels_handed_out(function, labels, &after) ==> {
            &&& after@ == builder@.with_func_labels(function)
            &&& labels == after@.func_labels[function.index]
        },
        builder.is_compiled(function, outcome, &after) ==> {
            &&& after@ == builder@.with_function(function)
            &&& outcome.value == Some(())
            &&& outcome.warnings@.len() == 0
            &&& outcome.errors@.len() == 0
        },
        builder.is_finalized(AsmBuilderResult::Evm(evm)) ==> {
            &&& evm.ops@ == lowered(contract_section(builder@.sections).ops)
            &&& evm.ops_runtime@ == evm.ops@
            &&& evm.abi@ == contract_section(builder@.sections).abi
        },
{
}

} // verus!
