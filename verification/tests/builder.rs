use evm_asm::error::{ok, CompileError, CompileResult, CompileWarning, Span};
use evm_asm::etk::{lower_op, lower_ops};
use evm_asm::evm_asm_builder::{
    AsmBuilder, AsmBuilderResult, EvmAsmBuilder, EvmAsmBuilderResult, EvmAsmSection,
};
use evm_asm::ir::{
    Block, BlockContent, Context, Function, FunctionContent, Instruction, Type, Value, ValueContent,
};
use evm_asm::label::Label;
use evm_asm::model::ProgramKind;
use evm_asm::op::EvmOp;

use fuel_ethabi::operation::Operation;
use fuel_ethabi::StateMutability;
use fuel_etk_asm::ops::{AbstractOp, Expression, Imm, Terminal};
use fuel_etk_ops::london::{
    CallValue, CodeCopy, Dup1, Invalid, IsZero, JumpDest, JumpI, MStore, Op, Pop, Push1, Return,
    Revert,
};

const RET: Instruction = Instruction::Ret(Value { index: 0 }, Type::Unit);

/// A function: its name, and its blocks, each with a label and its instructions.
type FunctionSketch<'a> = (&'a str, Vec<(&'a str, Vec<Option<Instruction>>)>);

fn context(functions: Vec<FunctionSketch>) -> Context {
    let mut res = Context { functions: vec![], blocks: vec![], values: vec![] };
    for (name, blocks) in functions {
        let mut content = FunctionContent { name: name.to_string(), is_entry: true, blocks: vec![] };
        for (label, instructions) in blocks {
            let mut block = BlockContent { label: label.to_string(), instructions: vec![] };
            for instruction in instructions {
                block.instructions.push(Value { index: res.values.len() });
                res.values.push(ValueContent { instruction, span: None });
            }
            content.blocks.push(Block { index: res.blocks.len() });
            res.blocks.push(block);
        }
        res.functions.push(content);
    }
    res
}

fn builder(context: &Context) -> EvmAsmBuilder<'_> {
    EvmAsmBuilder::new(ProgramKind::Contract, context)
}

fn finalized(builder: &EvmAsmBuilder) -> EvmAsmBuilderResult {
    let AsmBuilderResult::Evm(res) = builder.finalize();
    res
}

fn push1(n: u64) -> AbstractOp {
    AbstractOp::new(Op::Push1(Push1(Imm::with_expression(Expression::Terminal(n.into())))))
}

fn push(n: usize) -> AbstractOp {
    AbstractOp::Push(Imm::from(Terminal::Number(n.into())))
}

fn label(name: &str) -> AbstractOp {
    AbstractOp::Label(name.to_string())
}

fn dup1() -> AbstractOp {
    AbstractOp::new(Op::Dup1(Dup1))
}

fn setup() -> Vec<AbstractOp> {
    vec![push1(0x80), push1(0x40), AbstractOp::new(Op::MStore(MStore))]
}

fn trap() -> Vec<AbstractOp> {
    vec![push1(0x00), dup1(), AbstractOp::new(Op::Revert(Revert))]
}

fn ret() -> AbstractOp {
    AbstractOp::Op(Op::Return(Return))
}

fn invalid() -> AbstractOp {
    AbstractOp::Op(Op::Invalid(Invalid))
}

fn copy(data_size: usize, data_offset: usize) -> Vec<AbstractOp> {
    vec![
        push(data_size),
        dup1(),
        push(data_offset),
        push1(0x00),
        AbstractOp::Op(Op::CodeCopy(CodeCopy)),
        push1(0x00),
        ret(),
    ]
}

fn constructor() -> Operation {
    Operation::Constructor(fuel_ethabi::Constructor { inputs: vec![] })
}

#[allow(deprecated)]
fn function(name: &str) -> Operation {
    Operation::Function(fuel_ethabi::Function {
        name: name.to_string(),
        inputs: vec![],
        outputs: vec![],
        constant: None,
        state_mutability: StateMutability::NonPayable,
    })
}

fn unknown_location() -> Span {
    Span { src: "unknown source location".to_string(), start: 0, end: 23, path: None }
}

#[test]
fn an_empty_section_has_no_operations_and_no_bytes() {
    let section = EvmAsmSection::new();
    assert_eq!(section.lower(), vec![]);
    assert_eq!(section.size(), 0);
    assert_eq!(EvmAsmSection::default().size(), 0);
}

#[test]
fn a_contract_without_functions_is_its_constructor() {
    let context = context(vec![]);
    let res = finalized(&builder(&context));
    assert_eq!(res.ops, [setup(), copy(0, 16)].concat());
    assert_eq!(res.ops_runtime, res.ops);
    assert_eq!(res.abi, vec![constructor()]);
}

#[test]
fn a_contract_with_one_function() {
    let context = context(vec![("main", vec![("entry", vec![Some(RET)])])]);
    let mut builder = builder(&context);
    assert_eq!(builder.compile_function(Function { index: 0 }), ok((), vec![], vec![]));
    let res = finalized(&builder);
    assert_eq!(res.ops, [setup(), copy(10, 16), setup(), vec![ret()], trap()].concat());
    assert_eq!(res.ops_runtime, res.ops);
    assert_eq!(res.abi, vec![function("main"), constructor()]);
}

#[test]
fn sections_are_separated_by_an_invalid_instruction() {
    let context = context(vec![
        ("a", vec![("entry", vec![Some(RET)])]),
        ("b", vec![("entry", vec![])]),
        ("c", vec![]),
    ]);
    let mut builder = builder(&context);
    for index in 0..3 {
        builder.compile_function(Function { index });
    }
    let res = finalized(&builder);
    let a = [setup(), vec![ret()], trap()].concat();
    let b = [setup(), trap()].concat();
    let body = [a, vec![invalid()], b.clone(), vec![invalid()], b].concat();
    assert_eq!(res.ops, [setup(), copy(10 + 1 + 9 + 1 + 9, 16), body].concat());
    assert_eq!(res.abi, vec![function("a"), function("b"), function("c"), constructor()]);
}

#[test]
fn the_constructor_grows_with_the_size_of_the_code() {
    let context = context(vec![("main", vec![("entry", vec![Some(RET); 300])])]);
    let mut builder = builder(&context);
    builder.compile_function(Function { index: 0 });
    let res = finalized(&builder);
    assert_eq!(res.ops[..10], [setup(), copy(309, 17)].concat());
    assert_eq!(res.ops.len(), 10 + 3 + 300 + 3);
}

#[test]
fn blocks_other_than_the_entry_start_with_a_label() {
    let context = context(vec![
        ("main", vec![("entry", vec![]), ("loop", vec![Some(RET)]), ("done", vec![])]),
        ("other", vec![("only", vec![])]),
    ]);
    let mut builder = builder(&context);
    builder.compile_function(Function { index: 0 });
    builder.compile_function(Function { index: 1 });
    let res = finalized(&builder);
    let main = [setup(), vec![label(".1"), ret(), label(".2")], trap()].concat();
    let other = [setup(), vec![label(".3")], trap()].concat();
    assert_eq!(res.ops, [setup(), copy(20, 16), main, vec![invalid()], other].concat());
}

#[test]
fn functions_and_blocks_draw_on_the_same_labels() {
    let context = context(vec![("f", vec![("body", vec![])]), ("g", vec![("body", vec![])])]);
    let mut builder = builder(&context);
    assert_eq!(builder.func_to_labels(&Function { index: 0 }), (Label(1), Label(2)));
    builder.compile_function(Function { index: 1 });
    assert_eq!(builder.func_to_labels(&Function { index: 1 }), (Label(4), Label(5)));
    builder.compile_function(Function { index: 0 });
    let res = finalized(&builder);
    assert_eq!(res.ops[13], label(".3"));
    assert_eq!(res.ops[13 + 4 + 4], label(".6"));
    // Labels are made once and kept.
    assert_eq!(builder.func_to_labels(&Function { index: 0 }), (Label(1), Label(2)));
    assert_eq!(builder.func_to_labels(&Function { index: 1 }), (Label(4), Label(5)));
}

#[test]
fn compiling_a_function_again_repeats_its_section() {
    let context = context(vec![("f", vec![("entry", vec![]), ("next", vec![Some(RET)])])]);
    let mut builder = builder(&context);
    builder.compile_function(Function { index: 0 });
    builder.compile_function(Function { index: 0 });
    let section = [setup(), vec![label(".1"), ret()], trap()].concat();
    let res = finalized(&builder);
    assert_eq!(res.ops[10..], [section.clone(), vec![invalid()], section].concat());
    assert_eq!(res.abi, vec![function("f"), function("f"), constructor()]);
    assert_eq!(builder.func_to_labels(&Function { index: 0 }), (Label(2), Label(3)));
}

#[test]
fn label_names_are_a_dot_and_a_number() {
    assert_eq!(Label(0).to_string(), ".0");
    assert_eq!(Label(9).to_string(), ".9");
    assert_eq!(Label(10).to_string(), ".10");
    assert_eq!(Label(1234567890).to_string(), ".1234567890");
    assert_eq!(Label(usize::MAX).to_string(), format!(".{}", usize::MAX));
}

#[test]
fn the_size_of_a_constructor_depends_on_the_width_of_its_numbers() {
    let context = context(vec![]);
    let builder = builder(&context);
    assert_eq!(builder.generate_constructor(false, 0, 0).size(), 16);
    assert_eq!(builder.generate_constructor(false, 255, 255).size(), 16);
    assert_eq!(builder.generate_constructor(false, 256, 0).size(), 17);
    assert_eq!(builder.generate_constructor(false, 65535, 256).size(), 18);
    assert_eq!(builder.generate_constructor(false, 65536, 0).size(), 18);
    assert_eq!(builder.generate_constructor(false, usize::MAX, 1).size(), 23);
    assert_eq!(builder.generate_constructor(true, 0, 0).size(), 28);
    assert_eq!(builder.generate_constructor(true, 1 << 24, 1 << 16).size(), 33);
}

#[test]
fn a_payable_constructor_guards_against_ether() {
    let context = context(vec![]);
    let section = builder(&context).generate_constructor(true, 7, 9);
    let guard = vec![
        AbstractOp::new(Op::CallValue(CallValue)),
        dup1(),
        AbstractOp::new(Op::IsZero(IsZero)),
        AbstractOp::new(Op::Push1(Push1(Imm::with_label("tag_1")))),
        AbstractOp::new(Op::JumpI(JumpI)),
        push1(0x00),
        dup1(),
        AbstractOp::new(Op::Revert(Revert)),
        label("tag_1"),
        AbstractOp::new(Op::JumpDest(JumpDest)),
        AbstractOp::Op(Op::Pop(Pop)),
    ];
    assert_eq!(section.lower(), [setup(), guard, copy(7, 9)].concat());
    // Eight operations of the guard stand before its label.
    let before: usize = section.lower()[..11].iter().map(|op| op.size().unwrap()).sum();
    assert_eq!(before, 0x0f);
}

#[test]
fn every_operation_has_its_counterpart() {
    assert_eq!(lower_op(&EvmOp::Push1(0x2a)), push1(0x2a));
    assert_eq!(lower_op(&EvmOp::Push(0)), push(0));
    assert_eq!(lower_op(&EvmOp::Push(70000)), push(70000));
    assert_eq!(lower_op(&EvmOp::Label("here".to_string())), label("here"));
    assert_eq!(
        lower_op(&EvmOp::Push1Label("there".to_string())),
        AbstractOp::new(Op::Push1(Push1(Imm::with_label("there"))))
    );
    let plain = vec![
        EvmOp::IsZero,
        EvmOp::CallValue,
        EvmOp::CodeCopy,
        EvmOp::Pop,
        EvmOp::MStore,
        EvmOp::JumpI,
        EvmOp::JumpDest,
        EvmOp::Dup1,
        EvmOp::Return,
        EvmOp::Revert,
        EvmOp::Invalid,
    ];
    assert_eq!(
        lower_ops(&plain),
        vec![
            AbstractOp::new(Op::IsZero(IsZero)),
            AbstractOp::new(Op::CallValue(CallValue)),
            AbstractOp::new(Op::CodeCopy(CodeCopy)),
            AbstractOp::new(Op::Pop(Pop)),
            AbstractOp::new(Op::MStore(MStore)),
            AbstractOp::new(Op::JumpI(JumpI)),
            AbstractOp::new(Op::JumpDest(JumpDest)),
            AbstractOp::new(Op::Dup1(Dup1)),
            AbstractOp::new(Op::Return(Return)),
            AbstractOp::new(Op::Revert(Revert)),
            AbstractOp::new(Op::Invalid(Invalid)),
        ]
    );
    assert_eq!(plain.clone(), plain);
}

#[test]
fn a_value_that_is_no_instruction_is_reported() {
    let context = context(vec![("f", vec![("entry", vec![None])])]);
    let mut builder = builder(&context);
    assert_eq!(
        builder.compile_instruction(&Value { index: 0 }, true),
        ok(
            (),
            vec![],
            vec![CompileError::Internal("Value not an instruction.", unknown_location())]
        )
    );
}

#[test]
fn an_instruction_for_another_machine_is_reported() {
    let mut context = context(vec![("f", vec![("entry", vec![Some(Instruction::FuelVm)])])]);
    let span = Span {
        src: "let x = 1;".to_string(),
        start: 4,
        end: 5,
        path: Some("main.sw".to_string()),
    };
    context.values[0].span = Some(span.clone());
    let mut builder = builder(&context);
    assert_eq!(
        builder.compile_instruction(&Value { index: 0 }, false),
        ok(
            (),
            vec![],
            vec![CompileError::Internal(
                "Invalid FuelVM IR instruction provided to the EVM code gen.",
                span
            )]
        )
    );
}

#[test]
fn an_instruction_that_does_nothing_is_not_reported() {
    let context = context(vec![("f", vec![("entry", vec![Some(Instruction::Nop)])])]);
    let mut builder = builder(&context);
    assert_eq!(builder.compile_instruction(&Value { index: 0 }, false), ok((), vec![], vec![]));
}

#[test]
fn compiling_a_function_reports_nothing() {
    let context = context(vec![(
        "f",
        vec![("entry", vec![None, Some(Instruction::FuelVm), Some(Instruction::Nop), Some(RET)])],
    )]);
    let mut builder = builder(&context);
    assert_eq!(builder.compile_function(Function { index: 0 }), ok((), vec![], vec![]));
    assert_eq!(finalized(&builder).ops[10..], [setup(), vec![ret()], trap()].concat());
}

#[test]
fn the_label_of_an_entry_block_is_left_out() {
    let context = context(vec![("f", vec![("entry", vec![])])]);
    let mut builder = builder(&context);
    builder.insert_block_label(Block { index: 0 });
    assert_eq!(builder.func_to_labels(&Function { index: 0 }), (Label(1), Label(2)));
}

#[test]
fn an_entry_block_may_be_listed_twice() {
    let mut context = context(vec![("f", vec![("entry", vec![Some(RET)]), ("next", vec![])])]);
    context.functions[0].blocks.push(Block { index: 0 });
    let mut builder = builder(&context);
    builder.compile_function(Function { index: 0 });
    let section = [setup(), vec![ret(), label(".1"), ret()], trap()].concat();
    assert_eq!(finalized(&builder).ops, [setup(), copy(11, 16), section].concat());
}

#[test]
fn functions_that_share_a_block_share_its_label() {
    let mut context = context(vec![("f", vec![("next", vec![])]), ("g", vec![("own", vec![])])]);
    context.functions[1].blocks.push(Block { index: 0 });
    let mut builder = builder(&context);
    builder.compile_function(Function { index: 0 });
    builder.compile_function(Function { index: 1 });
    let f = [setup(), vec![label(".1")], trap()].concat();
    let g = [setup(), vec![label(".2"), label(".1")], trap()].concat();
    assert_eq!(finalized(&builder).ops[10..], [f, vec![invalid()], g].concat());
}

/// The names of the labels that the operations declare, in order.
fn label_names(ops: &[AbstractOp]) -> Vec<String> {
    let mut res = vec![];
    for op in ops {
        if let AbstractOp::Label(name) = op {
            res.push(name.clone());
        }
    }
    res
}

#[test]
fn no_label_stands_twice_in_a_contract() {
    let context = context(vec![
        ("f", vec![("entry", vec![]), ("loop", vec![Some(RET)]), ("done", vec![])]),
        ("g", vec![("entry", vec![]), ("loop", vec![])]),
        ("h", vec![("loop", vec![]), ("done", vec![Some(RET)])]),
    ]);
    let mut builder = builder(&context);
    builder.compile_function(Function { index: 2 });
    builder.func_to_labels(&Function { index: 0 });
    builder.compile_function(Function { index: 0 });
    builder.compile_function(Function { index: 1 });
    builder.func_to_labels(&Function { index: 1 });
    let res = finalized(&builder);
    assert_eq!(label_names(&res.ops), vec![".1", ".2", ".5", ".6", ".7"]);
    // The contract is a program, so it has a size.
    assert_eq!(builder.generate_contract().size(), 16 + 10 + 1 + 10 + 1 + 9);
}

#[test]
fn labels_that_are_made_are_greater_than_all_before() {
    let context = context(vec![
        ("f", vec![("a", vec![]), ("b", vec![])]),
        ("g", vec![("c", vec![])]),
    ]);
    let mut builder = builder(&context);
    assert_eq!(builder.get_label(), Label(1));
    assert_eq!(builder.func_to_labels(&Function { index: 0 }), (Label(2), Label(3)));
    assert_eq!(builder.get_label(), Label(4));
    builder.compile_function(Function { index: 0 });
    assert_eq!(builder.func_to_labels(&Function { index: 1 }), (Label(7), Label(8)));
    assert_eq!(builder.block_to_label(&Block { index: 2 }), Label(9));
    assert_eq!(builder.get_label(), Label(10));
    builder.compile_function(Function { index: 1 });
    assert_eq!(label_names(&finalized(&builder).ops), vec![".5", ".6", ".9"]);
}

#[test]
fn a_block_keeps_its_label_whatever_is_called_between() {
    let context = context(vec![
        ("f", vec![("a", vec![]), ("b", vec![])]),
        ("g", vec![("c", vec![])]),
    ]);
    let mut builder = builder(&context);
    assert_eq!(builder.block_to_label(&Block { index: 1 }), Label(1));
    builder.compile_function(Function { index: 0 });
    assert_eq!(builder.func_to_labels(&Function { index: 1 }), (Label(3), Label(4)));
    builder.compile_function(Function { index: 1 });
    assert_eq!(builder.block_to_label(&Block { index: 0 }), Label(2));
    assert_eq!(builder.block_to_label(&Block { index: 1 }), Label(1));
    assert_eq!(builder.block_to_label(&Block { index: 2 }), Label(5));
    // The function keeps its labels, too, and compiling again repeats the section.
    assert_eq!(builder.func_to_labels(&Function { index: 1 }), (Label(3), Label(4)));
    builder.compile_function(Function { index: 0 });
    assert_eq!(label_names(&finalized(&builder).ops), vec![".2", ".1", ".5", ".2", ".1"]);
    assert_eq!(builder.get_label(), Label(6));
}

#[test]
fn the_contract_section_lists_the_interface() {
    let context = context(vec![("f", vec![])]);
    let mut builder = builder(&context);
    builder.compile_function(Function { index: 0 });
    let section = builder.generate_contract();
    assert_eq!(section.lower(), finalized(&builder).ops);
    assert_eq!(section.size(), 16 + 9);
}

#[test]
fn a_code_generator_can_be_used_through_its_trait() {
    fn run<B: AsmBuilder>(builder: &mut B) -> ((Label, Label), AsmBuilderResult) {
        let labels = builder.func_to_labels(&Function { index: 0 });
        builder.compile_function(Function { index: 0 });
        (labels, builder.finalize())
    }
    let context = context(vec![("f", vec![("body", vec![])])]);
    let (labels, AsmBuilderResult::Evm(res)) = run(&mut builder(&context));
    assert_eq!(labels, (Label(1), Label(2)));
    assert_eq!(res.ops[10..], [setup(), vec![label(".3")], trap()].concat());
}

#[test]
fn an_outcome_keeps_its_reports() {
    let warning = || CompileWarning { message: "unused".to_string(), span: unknown_location() };
    let error = || CompileError::Internal("broken", unknown_location());
    let res: CompileResult<u8> = ok(3, vec![warning()], vec![error()]);
    assert_eq!(res.value, Some(3));
    assert_eq!(res.warnings, vec![warning()]);
    assert_eq!(res.errors, vec![error()]);
}
