//! The intermediate representation that the code generator reads.
//!
//! A [`Context`] owns functions, blocks and values; [`Function`], [`Block`] and [`Value`] refer to
//! them by their index.
use vstd::prelude::*;

use crate::error::{Span, SpanView};

verus! {

/// A function of the context.
#[derive(Debug, Clone, Copy, PartialEq, Eq, Structural)]
pub struct Function {
    pub index: usize,
}

/// A block of the context.
#[derive(Debug, Clone, Copy, PartialEq, Eq, Structural)]
pub struct Block {
    pub index: usize,
}

/// A value of the context.
#[derive(Debug, Clone, Copy, PartialEq, Eq, Structural)]
pub struct Value {
    pub index: usize,
}

/// A type, as far as the code generator tells types apart.
#[derive(Debug, Clone, Copy, PartialEq, Eq, Structural)]
pub enum Type {
    Unit,
    Other,
}

impl Type {
    pub fn is_unit(&self) -> (res: bool)
        ensures
            res == (*self == Type::Unit),
    {
        matches!(self, Type::Unit)
    }
}

/// An instruction, with the operands that the code generator reads.
#[derive(Debug, Clone, Copy, PartialEq, Eq, Structural)]
pub enum Instruction {
    AddrOf,
    AsmBlock,
    BitCast,
    BinaryOp,
    Branch,
    Call,
    CastPtr,
    Cmp,
    ConditionalBranch,
    ContractCall,
    ExtractElement,
    ExtractValue,
    FuelVm,
    GetLocal,
    InsertElement,
    InsertValue,
    IntToPtr,
    Load,
    MemCopy,
    Nop,
    Ret(Value, Type),
    Store,
}

/// What a function consists of.
#[derive(Debug)]
pub struct FunctionContent {
    pub name: String,
    pub is_entry: bool,
    pub blocks: Vec<Block>,
}

/// What a block consists of.
#[derive(Debug)]
pub struct BlockContent {
    pub label: String,
    pub instructions: Vec<Value>,
}

/// What a value is: an instruction or not, and where it comes from.
#[derive(Debug)]
pub struct ValueContent {
    pub instruction: Option<Instruction>,
    pub span: Option<Span>,
}

/// The functions, blocks and values of a program.
#[derive(Debug)]
pub struct Context {
    pub functions: Vec<FunctionContent>,
    pub blocks: Vec<BlockContent>,
    pub values: Vec<ValueContent>,
}

pub struct FunctionView {
    pub name: Seq<char>,
    pub is_entry: bool,
    pub blocks: Seq<Block>,
}

pub struct BlockView {
    pub label: Seq<char>,
    pub instructions: Seq<Value>,
}

pub struct ValueView {
    pub instruction: Option<Instruction>,
    pub span: Option<SpanView>,
}

pub struct ContextView {
    pub functions: Seq<FunctionView>,
    pub blocks: Seq<BlockView>,
    pub values: Seq<ValueView>,
}

impl View for FunctionContent {
    type V = FunctionView;

    open spec fn view(&self) -> FunctionView {
        FunctionView { name: self.name@, is_entry: self.is_entry, blocks: self.blocks@ }
    }
}

impl View for BlockContent {
    type V = BlockView;

    open spec fn view(&self) -> BlockView {
        BlockView { label: self.label@, instructions: self.instructions@ }
    }
}

impl View for ValueContent {
    type V = ValueView;

    open spec fn view(&self) -> ValueView {
        ValueView {
            instruction: self.instruction,
            span: match self.span {
                Some(span) => Some(span@),
                None => None,
            },
        }
    }
}

impl View for Context {
    type V = ContextView;

    open spec fn view(&self) -> ContextView {
        ContextView {
            functions: self.functions@.map_values(|function: FunctionContent| function@),
            blocks: self.blocks@.map_values(|block: BlockContent| block@),
            values: self.values@.map_values(|value: ValueContent| value@),
        }
    }
}

impl ContextView {
    pub open spec fn has_function(self, function: Function) -> bool {
        function.index < self.functions.len()
    }

    pub open spec fn has_block(self, block: Block) -> bool {
        block.index < self.blocks.len()
    }

    pub open spec fn has_value(self, value: Value) -> bool {
        value.index < self.values.len()
    }

    pub open spec fn function(self, function: Function) -> FunctionView {
        self.functions[function.index as int]
    }

    pub open spec fn block(self, block: Block) -> BlockView {
        self.blocks[block.index as int]
    }

    pub open spec fn value(self, value: Value) -> ValueView {
        self.values[value.index as int]
    }
}

/// A function, a block or a value is the one of the context at its index, with all that it consists
/// of, and the context has it if the index is one of the context.
pub proof fn law_references_are_by_index(
    context: Context,
    function: Function,
    block: Block,
    value: Value,
)
    ensures
        context@.has_function(function) <==> function.index < context.functions.len(),
        context@.has_block(block) <==> block.index < context.blocks.len(),
        context@.has_value(value) <==> value.index < context.values.len(),
        function.index < context.functions.len() ==> {
            let content = context.functions[function.index as int];
            &&& context@.function(function).name == content.name@
            &&& context@.function(function).is_entry == content.is_entry
            &&& context@.function(function).blocks == content.blocks@
        },
        block.index < context.blocks.len() ==> {
            let content = context.blocks[block.index as int];
            &&& context@.block(block).label == content.label@
            &&& context@.block(block).instructions == content.instructions@
        },
        value.index < context.values.len() ==> {
            let content = context.values[value.index as int];
            &&& context@.value(value).instruction == content.instruction
            &&& content.span is None <==> context@.value(value).span is None
            &&& content.span matches Some(span) ==> context@.value(value).span == Some(span@)
        },
{
}

} // verus!
