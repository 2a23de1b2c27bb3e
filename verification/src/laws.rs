//! What holds of the code generator as a whole.
use vstd::map_lib::lemma_submap_of_trans;
use vstd::prelude::*;

use crate::abi::{constructor_operation, function_operation};
use crate::ir::{Block, ContextView, Function};
use crate::label::{label_name, law_label_names_are_distinct, Label};
use crate::model::{
    blocks_have_one_place, blocks_of, blocks_ops, compiled_functions, constructor_ops,
    contract_section, copy_ops, deploying_ops, function_section, heading_ops, is_entry_block,
    joined_abi, joined_ops, labelled_blocks_are_distinct, lemma_blocks_ops_agree,
    lemma_blocks_ops_refer_nowhere, lemma_constructor_assembles, lemma_values_ops_plain,
    lemma_with_all_extends, lemma_with_all_grows, setup_ops, trap_ops, value_guard_ops, values_ops,
    BlockLabels, BuilderView, Call, ProgramKind, SectionView,
};
use crate::op::{
    assembles, be_bytes, code_in, code_len, label_offset, labels_distinct, lemma_be_bytes_len,
    machine_code, refers_nowhere, OpView,
};

verus! {

/// The bytes of two pieces of code are those of the first and those of the second behind them.
pub proof fn lemma_code_in_add(a: Seq<OpView>, b: Seq<OpView>, program: Seq<OpView>)
    ensures
        code_in(a + b, program) == code_in(a, program) + code_in(b, program),
    decreases b.len(),
{
    if b.len() == 0 {
        assert(a + b =~= a);
        assert(code_in(a, program) + code_in(b, program) =~= code_in(a, program));
    } else {
        assert((a + b).drop_last() =~= a + b.drop_last());
        lemma_code_in_add(a, b.drop_last(), program);
        assert(code_in(a + b, program) =~= code_in(a, program) + code_in(b, program));
    }
}

/// The bytes of code that refers to no label are the same in every program.
pub proof fn lemma_code_in_anywhere(ops: Seq<OpView>, a: Seq<OpView>, b: Seq<OpView>)
    requires
        refers_nowhere(ops),
    ensures
        code_in(ops, a) == code_in(ops, b),
    decreases ops.len(),
{
    if ops.len() > 0 {
        assert(!(ops[ops.len() - 1] is Push1Label));
        assert(refers_nowhere(ops.drop_last())) by {
            assert forall|i: int| 0 <= i < ops.drop_last().len() implies !(
            #[trigger] ops.drop_last()[i] is Push1Label) by {
                assert(ops.drop_last()[i] == ops[i]);
            }
        }
        lemma_code_in_anywhere(ops.drop_last(), a, b);
    }
}

/// The length of code is the number of its bytes.
pub proof fn law_code_len_counts_bytes(ops: Seq<OpView>, program: Seq<OpView>)
    ensures
        code_in(ops, program).len() == code_len(ops),
    decreases ops.len(),
{
    if ops.len() > 0 {
        law_code_len_counts_bytes(ops.drop_last(), program);
    }
}

/// The constructor of a contract names its own length as the place of the code that it returns,
/// although that number is part of the constructor.
pub proof fn law_constructor_ends_where_its_data_starts(data_size: usize)
    ensures
        deploying_ops(data_size) == constructor_ops(
            false,
            data_size,
            code_len(deploying_ops(data_size)) as usize,
        ),
        code_len(deploying_ops(data_size)) <= 0xff,
{
    let data_offset = code_len(constructor_ops(false, data_size, 0)) as usize;
    lemma_be_bytes_len(data_size);
    lemma_be_bytes_len(0);
    lemma_constructor_assembles(false, data_size, 0);
    lemma_constructor_assembles(false, data_size, data_offset);
    assert(be_bytes(data_offset as nat).len() == 1);
    assert(be_bytes(0nat).len() == 1);
}

/// Deploying a contract stores the code of its functions, and nothing else: in the contract's
/// code, the bytes that the constructor copies and returns are those of the sections, and they are
/// all that follows the constructor.
pub proof fn law_constructor_returns_the_code_of_the_functions(builder: BuilderView)
    requires
        builder.wf(),
        code_len(joined_ops(builder.sections)) <= usize::MAX,
    ensures
        ({
            let body = joined_ops(builder.sections);
            let data_size = code_len(body);
            let data_offset = code_len(deploying_ops(data_size as usize));
            let contract = contract_section(builder.sections).ops;
            &&& contract == constructor_ops(false, data_size as usize, data_offset as usize) + body
            &&& machine_code(contract).len() == data_offset + data_size
            &&& machine_code(contract).subrange(
                data_offset as int,
                (data_offset + data_size) as int,
            ) == machine_code(body)
        }),
{
    let body = joined_ops(builder.sections);
    let data_size = code_len(body) as usize;
    let ctor = deploying_ops(data_size);
    let contract = contract_section(builder.sections).ops;
    law_constructor_ends_where_its_data_starts(data_size);
    lemma_joined_refers_nowhere(builder.sections);
    lemma_code_in_add(ctor, body, contract);
    lemma_code_in_anywhere(body, contract, body);
    law_code_len_counts_bytes(ctor, contract);
    law_code_len_counts_bytes(body, contract);
    assert(machine_code(contract).subrange(
        code_len(ctor) as int,
        code_len(ctor) + data_size,
    ) =~= machine_code(body));
}

/// Joining sections adds no reference to a label.
pub proof fn lemma_joined_refers_nowhere(sections: Seq<SectionView>)
    requires
        forall|i: int| 0 <= i < sections.len() ==> refers_nowhere((#[trigger] sections[i]).ops),
    ensures
        refers_nowhere(joined_ops(sections)),
    decreases sections.len(),
{
    if sections.len() > 1 {
        let rest = sections.drop_last();
        assert forall|i: int| 0 <= i < rest.len() implies refers_nowhere(
            (#[trigger] rest[i]).ops,
        ) by {
            assert(rest[i] == sections[i]);
        }
        lemma_joined_refers_nowhere(rest);
        assert(refers_nowhere(sections[sections.len() - 1].ops));
    }
}

/// A section that is compiled comes behind the code there is, and an invalid instruction stands
/// between them.
pub proof fn law_sections_follow_each_other(builder: BuilderView, function: Function)
    requires
        builder.wf(),
        builder.sections.len() > 0,
    ensures
        ({
            let after = builder.with_function(function);
            machine_code(joined_ops(after.sections)) == machine_code(joined_ops(builder.sections))
                + seq![0xfeu8] + machine_code(after.sections.last().ops)
        }),
{
    let after = builder.with_function(function);
    let before = joined_ops(builder.sections);
    let last = after.sections.last().ops;
    let all = joined_ops(after.sections);
    let invalid = seq![OpView::Invalid];
    assert(after.sections.drop_last() =~= builder.sections);
    lemma_joined_refers_nowhere(builder.sections);
    lemma_blocks_ops_refer_nowhere(
        builder.context,
        after.block_labels.labels,
        builder.context.function(function).blocks,
    );
    lemma_code_in_add(before + invalid, last, all);
    lemma_code_in_add(before, invalid, all);
    lemma_code_in_anywhere(before, all, before);
    lemma_code_in_anywhere(last, all, last);
    assert(invalid.drop_last() =~= seq![]);
    assert(code_in(invalid, all) =~= seq![0xfeu8]) by {
        reveal_with_fuel(code_in, 2);
    }
}

/// Where the code of the section with number `i` starts in the contract.
pub open spec fn section_offset(sections: Seq<SectionView>, i: int) -> nat {
    code_len(deploying_ops(code_len(joined_ops(sections)) as usize)) + if i == 0 {
        0
    } else {
        code_len(joined_ops(sections.take(i))) + 1
    }
}

proof fn lemma_section_in_joined(sections: Seq<SectionView>, i: int, program: Seq<OpView>)
    requires
        0 <= i < sections.len(),
    ensures
        ({
            let code = code_in(joined_ops(sections), program);
            let section = code_in(sections[i].ops, program);
            let at = if i == 0 {
                0
            } else {
                code_len(joined_ops(sections.take(i))) + 1
            };
            &&& at + section.len() <= code.len()
            &&& code.subrange(at as int, (at + section.len()) as int) == section
        }),
    decreases sections.len(),
{
    let all = joined_ops(sections);
    let rest = sections.drop_last();
    let before = joined_ops(rest);
    let last = sections.last().ops;
    let invalid = seq![OpView::Invalid];
    let section = code_in(sections[i].ops, program);
    if sections.len() == 1 {
        assert(code_in(all, program).subrange(0, section.len() as int) =~= section);
    } else {
        lemma_code_in_add(before + invalid, last, program);
        lemma_code_in_add(before, invalid, program);
        law_code_len_counts_bytes(before, program);
        law_code_len_counts_bytes(invalid, program);
        assert(invalid.drop_last() =~= seq![]);
        assert(code_len(invalid) == 1) by {
            reveal_with_fuel(code_len, 2);
        }
        if i == sections.len() - 1 {
            assert(sections.take(i) =~= rest);
            assert(code_in(all, program).subrange(
                (code_len(before) + 1) as int,
                (code_len(before) + 1 + section.len()) as int,
            ) =~= section);
        } else {
            lemma_section_in_joined(rest, i, program);
            assert(rest.take(i) =~= sections.take(i));
            let at = if i == 0 {
                0
            } else {
                code_len(joined_ops(sections.take(i))) + 1
            };
            assert(code_in(all, program).subrange(at as int, (at + section.len()) as int)
                =~= code_in(before, program).subrange(at as int, (at + section.len()) as int));
        }
    }
}

/// Every section stands whole in the contract, behind the constructor and the sections that were
/// compiled before it.
pub proof fn law_each_section_stands_in_the_contract(builder: BuilderView, i: int)
    requires
        builder.wf(),
        code_len(joined_ops(builder.sections)) <= usize::MAX,
        0 <= i < builder.sections.len(),
    ensures
        ({
            let contract = machine_code(contract_section(builder.sections).ops);
            let section = machine_code(builder.sections[i].ops);
            let at = section_offset(builder.sections, i);
            &&& at + section.len() <= contract.len()
            &&& contract.subrange(at as int, (at + section.len()) as int) == section
        }),
{
    let sections = builder.sections;
    let body = joined_ops(sections);
    let contract = machine_code(contract_section(sections).ops);
    let section = machine_code(sections[i].ops);
    let ctor_len = code_len(deploying_ops(code_len(body) as usize));
    let at = section_offset(sections, i);
    law_constructor_returns_the_code_of_the_functions(builder);
    lemma_section_in_joined(sections, i, body);
    lemma_code_in_anywhere(sections[i].ops, body, sections[i].ops);
    law_code_len_counts_bytes(body, body);
    assert(contract.subrange(at as int, (at + section.len()) as int) =~= contract.subrange(
        ctor_len as int,
        (ctor_len + code_len(body)) as int,
    ).subrange((at - ctor_len) as int, (at - ctor_len + section.len()) as int));
}

/// Compiling a function adds its section behind those there are, and changes none of them.
pub proof fn law_compiling_adds_one_section(builder: BuilderView, function: Function)
    ensures
        ({
            let after = builder.with_function(function);
            &&& after.sections.len() == builder.sections.len() + 1
            &&& after.sections.drop_last() == builder.sections
            &&& after.cur_section is None
            &&& after.context == builder.context
            &&& after.program_kind == builder.program_kind
        }),
{
    assert(builder.with_function(function).sections.drop_last() =~= builder.sections);
}

/// The code of a function sets the free memory pointer first, and ends by reverting.
pub proof fn law_function_code_is_framed(builder: BuilderView, function: Function)
    ensures
        ({
            let code = machine_code(builder.with_function(function).sections.last().ops);
            &&& code.len() >= 9
            &&& code.take(5) == seq![0x60u8, 0x80, 0x60, 0x40, 0x52]
            &&& code.skip(code.len() - 4) == seq![0x60u8, 0x00, 0x80, 0xfd]
        }),
{
    let after = builder.with_function(function);
    let ops = after.sections.last().ops;
    let blocks = blocks_ops(
        builder.context,
        after.block_labels.labels,
        builder.context.function(function).blocks,
    );
    let code = machine_code(ops);
    lemma_code_in_add(setup_ops() + blocks, trap_ops(), ops);
    lemma_code_in_add(setup_ops(), blocks, ops);
    reveal_with_fuel(code_in, 4);
    assert(code_in(setup_ops(), ops) =~= seq![0x60u8, 0x80, 0x60, 0x40, 0x52]);
    assert(code_in(trap_ops(), ops) =~= seq![0x60u8, 0x00, 0x80, 0xfd]);
    assert(code.take(5) =~= seq![0x60u8, 0x80, 0x60, 0x40, 0x52]);
    assert(code.skip(code.len() - 4) =~= seq![0x60u8, 0x00, 0x80, 0xfd]);
}

/// The bytes of the guard, in a program in which the guard's label has the position 0x0f.
pub proof fn lemma_guard_code(program: Seq<OpView>)
    requires
        label_offset(program, "tag_1"@) == 0x0f,
    ensures
        code_in(value_guard_ops(), program) == seq![0x34u8, 0x80, 0x15, 0x60, 0x0f] + seq![
            0x57u8,
            0x60,
            0x00,
            0x80,
            0xfd,
        ] + seq![0x5bu8, 0x50],
{
    let test = seq![
        OpView::CallValue,
        OpView::Dup1,
        OpView::IsZero,
        OpView::Push1Label("tag_1"@),
    ];
    let refuse = seq![OpView::JumpI, OpView::Push1(0x00), OpView::Dup1, OpView::Revert];
    let accept = seq![OpView::Label("tag_1"@), OpView::JumpDest, OpView::Pop];
    assert(value_guard_ops() =~= test + refuse + accept);
    lemma_code_in_add(test, refuse, program);
    lemma_code_in_add(test + refuse, accept, program);
    assert(code_in(test, program) =~= seq![0x34u8, 0x80, 0x15, 0x60, 0x0f]) by {
        reveal_with_fuel(code_in, 5);
    }
    assert(code_in(refuse, program) =~= seq![0x57u8, 0x60, 0x00, 0x80, 0xfd]) by {
        reveal_with_fuel(code_in, 5);
    }
    assert(code_in(accept, program) =~= seq![0x5bu8, 0x50]) by {
        reveal_with_fuel(code_in, 4);
    }
}

/// The guard of a payable constructor jumps over the revert, to a jump destination.
pub proof fn law_guard_jumps_over_the_revert(data_size: usize, data_offset: usize)
    ensures
        ({
            let code = machine_code(constructor_ops(true, data_size, data_offset));
            &&& code.len() > 0x0f
            &&& code.subrange(5, 0x0f) == seq![0x34u8, 0x80, 0x15, 0x60, 0x0f] + seq![
                0x57u8,
                0x60,
                0x00,
                0x80,
                0xfd,
            ]
            &&& code[0x0f] == 0x5b
        }),
{
    let ops = constructor_ops(true, data_size, data_offset);
    let code = machine_code(ops);
    let copy = copy_ops(data_size, data_offset);
    let guard = value_guard_ops();
    lemma_constructor_assembles(true, data_size, data_offset);
    lemma_guard_code(ops);
    lemma_code_in_add(setup_ops() + guard, copy, ops);
    lemma_code_in_add(setup_ops(), guard, ops);
    law_code_len_counts_bytes(setup_ops(), ops);
    assert(code_len(setup_ops()) == 5) by {
        reveal_with_fuel(code_len, 4);
    }
    assert(code.subrange(5, 0x0f) =~= code_in(guard, ops).take(10));
    assert(code_in(guard, ops).take(10) =~= seq![0x34u8, 0x80, 0x15, 0x60, 0x0f] + seq![
        0x57u8,
        0x60,
        0x00,
        0x80,
        0xfd,
    ]);
}

/// The interface of a contract lists the functions in the order in which they were compiled, and
/// the constructor last.
pub proof fn law_interface_lists_functions_in_order(builder: BuilderView, function: Function)
    ensures
        contract_section(builder.with_function(function).sections).abi == joined_abi(
            builder.sections,
        ) + seq![
            function_operation(
                builder.context.function(function).name,
                seq![],
                seq![],
                None,
                fuel_ethabi::StateMutability::NonPayable,
            ),
            constructor_operation(seq![]),
        ],
{
    let sections = builder.with_function(function).sections;
    assert(sections.drop_last() =~= builder.sections);
    assert(contract_section(sections).abi =~= joined_abi(builder.sections) + seq![
        function_operation(
            builder.context.function(function).name,
            seq![],
            seq![],
            None,
            fuel_ethabi::StateMutability::NonPayable,
        ),
        constructor_operation(seq![]),
    ]);
}

/// Labels stay: neither labels for another function nor compiling one takes them away or changes
/// them, and the numbers of labels only grow.
pub proof fn law_labels_are_kept(builder: BuilderView, function: Function)
    ensures
        builder.func_labels.submap_of(builder.with_func_labels(function).func_labels),
        builder.with_func_labels(function).block_labels.labels == builder.block_labels.labels,
        builder.block_labels.last <= builder.with_func_labels(function).block_labels.last,
        builder.with_function(function).func_labels == builder.func_labels,
        builder.block_labels.labels.submap_of(
            builder.with_function(function).block_labels.labels,
        ),
        builder.block_labels.last <= builder.with_function(function).block_labels.last,
{
    let blocks = builder.context.function(function).blocks;
    lemma_with_all_extends(builder.block_labels, builder.context, blocks);
    lemma_with_all_grows(builder.block_labels, builder.context, blocks, 0);
    assert(blocks.take(0) =~= seq![]);
}

proof fn lemma_with_all_bounded(labels: BlockLabels, context: ContextView, blocks: Seq<Block>)
    ensures
        labels.with_all(context, blocks).last <= labels.last + blocks.len(),
    decreases blocks.len(),
{
    if blocks.len() > 0 {
        lemma_with_all_bounded(labels, context, blocks.drop_last());
    }
}

/// Compiling a function makes at most one label for each of its blocks.
pub proof fn law_compiling_makes_one_label_per_block_at_most(
    builder: BuilderView,
    function: Function,
)
    ensures
        builder.with_function(function).block_labels.last <= builder.block_labels.last
            + builder.context.function(function).blocks.len(),
{
    lemma_with_all_bounded(
        builder.block_labels,
        builder.context,
        builder.context.function(function).blocks,
    );
}

proof fn lemma_with_all_again(labels: BlockLabels, context: ContextView, blocks: Seq<Block>)
    requires
        forall|i: int|
            0 <= i < blocks.len() && !is_entry_block(context.block(#[trigger] blocks[i]))
                ==> labels.labels.contains_key(blocks[i].index),
    ensures
        labels.with_all(context, blocks) == labels,
    decreases blocks.len(),
{
    if blocks.len() > 0 {
        assert forall|i: int|
            0 <= i < blocks.drop_last().len() && !is_entry_block(
                context.block(#[trigger] blocks.drop_last()[i]),
            ) implies labels.labels.contains_key(blocks.drop_last()[i].index) by {
            assert(blocks[i] == blocks.drop_last()[i]);
        }
        lemma_with_all_again(labels, context, blocks.drop_last());
        assert(blocks.last() == blocks[blocks.len() - 1]);
    }
}

proof fn lemma_labels_distinct_add(a: Seq<OpView>, b: Seq<OpView>)
    ensures
        labels_distinct(a + b) <==> {
            &&& labels_distinct(a)
            &&& labels_distinct(b)
            &&& forall|i: int|
                0 <= i < b.len() && #[trigger] b[i] is Label ==> !a.contains(b[i])
        },
{
    let all = a + b;
    if labels_distinct(all) {
        assert forall|i: int, j: int|
            #![trigger a[i], a[j]]
            0 <= i < j < a.len() && a[i] is Label implies a[i] != a[j] by {
            assert(all[i] == a[i] && all[j] == a[j]);
        }
        assert forall|i: int, j: int|
            #![trigger b[i], b[j]]
            0 <= i < j < b.len() && b[i] is Label implies b[i] != b[j] by {
            assert(all[a.len() + i] == b[i] && all[a.len() + j] == b[j]);
        }
        assert forall|i: int| 0 <= i < b.len() && #[trigger] b[i] is Label implies !a.contains(
            b[i],
        ) by {
            assert(all[a.len() + i] == b[i]);
            if a.contains(b[i]) {
                let j = a.index_of(b[i]);
                assert(all[j] == b[i]);
            }
        }
    }
    if labels_distinct(a) && labels_distinct(b) && (forall|i: int|
        0 <= i < b.len() && #[trigger] b[i] is Label ==> !a.contains(b[i])) {
        assert forall|i: int, j: int|
            #![trigger all[i], all[j]]
            0 <= i < j < all.len() && all[i] is Label implies all[i] != all[j] by {
            if j < a.len() {
                assert(all[i] == a[i] && all[j] == a[j]);
            } else if i >= a.len() {
                assert(all[i] == b[i - a.len()] && all[j] == b[j - a.len()]);
            } else {
                assert(all[i] == a[i] && all[j] == b[j - a.len()]);
            }
        }
    }
}

/// The labels in the code of blocks are those of the blocks.
proof fn lemma_labels_of_blocks(
    context: ContextView,
    labels: Map<usize, Label>,
    blocks: Seq<Block>,
    label: Label,
)
    ensures
        blocks_ops(context, labels, blocks).contains(OpView::Label(label_name(label.0 as nat)))
            <==> exists|i: int|
            0 <= i < blocks.len() && !is_entry_block(context.block(#[trigger] blocks[i]))
                && labels[blocks[i].index] == label,
    decreases blocks.len(),
{
    let op = OpView::Label(label_name(label.0 as nat));
    let all = blocks_ops(context, labels, blocks);
    if blocks.len() > 0 {
        let rest = blocks.drop_last();
        let block = blocks.last();
        let before = blocks_ops(context, labels, rest);
        let heading = heading_ops(context, labels, block);
        let values = values_ops(context, context.block(block).instructions);
        lemma_labels_of_blocks(context, labels, rest, label);
        lemma_values_ops_plain(context, context.block(block).instructions);
        assert(all == before + heading + values);
        if all.contains(op) {
            let k = all.index_of(op);
            if k < before.len() {
                assert(before[k] == op);
                let i = choose|i: int|
                    0 <= i < rest.len() && !is_entry_block(context.block(#[trigger] rest[i]))
                        && labels[rest[i].index] == label;
                assert(blocks[i] == rest[i]);
            } else if k < before.len() + heading.len() {
                assert(heading[k - before.len()] == op);
                law_label_names_are_distinct(labels[block.index], label);
                assert(blocks[blocks.len() - 1] == block);
            } else {
                assert(values[k - before.len() - heading.len()] == op);
            }
        }
        if exists|i: int|
            0 <= i < blocks.len() && !is_entry_block(context.block(#[trigger] blocks[i]))
                && labels[blocks[i].index] == label {
            let i = choose|i: int|
                0 <= i < blocks.len() && !is_entry_block(context.block(#[trigger] blocks[i]))
                    && labels[blocks[i].index] == label;
            if i < rest.len() {
                assert(rest[i] == blocks[i]);
                let k = before.index_of(op);
                assert(all[k] == op);
            } else {
                assert(all[before.len() as int] == op);
            }
        }
    }
}

proof fn lemma_labels_of_blocks_distinct(
    context: ContextView,
    labels: Map<usize, Label>,
    blocks: Seq<Block>,
)
    requires
        forall|i: int, j: int|
            #![trigger blocks[i], blocks[j]]
            0 <= i < blocks.len() && 0 <= j < blocks.len() && !is_entry_block(
                context.block(blocks[i]),
            ) && !is_entry_block(context.block(blocks[j])) && labels[blocks[i].index]
                == labels[blocks[j].index] ==> blocks[i] == blocks[j],
    ensures
        labels_distinct(blocks_ops(context, labels, blocks)) <==> labelled_blocks_are_distinct(
            context,
            blocks,
        ),
    decreases blocks.len(),
{
    if blocks.len() > 0 {
        let rest = blocks.drop_last();
        let block = blocks.last();
        let before = blocks_ops(context, labels, rest);
        let heading = heading_ops(context, labels, block);
        let values = values_ops(context, context.block(block).instructions);
        assert(forall|i: int| 0 <= i < rest.len() ==> rest[i] == blocks[i]);
        assert(block == blocks[blocks.len() - 1]);
        lemma_labels_of_blocks_distinct(context, labels, rest);
        lemma_values_ops_plain(context, context.block(block).instructions);
        lemma_labels_distinct_add(before, heading);
        lemma_labels_distinct_add(before + heading, values);
        lemma_labels_of_blocks(context, labels, rest, labels[block.index]);
        if labelled_blocks_are_distinct(context, blocks) {
            assert(labelled_blocks_are_distinct(context, rest));
        }
        if labelled_blocks_are_distinct(context, rest) && (is_entry_block(context.block(block))
            || !before.contains(heading[0])) {
            assert forall|i: int, j: int|
                #![trigger blocks[i], blocks[j]]
                0 <= i < j < blocks.len() && !is_entry_block(
                    context.block(blocks[i]),
                ) implies blocks[i] != blocks[j] by {
                if j < rest.len() {
                    assert(rest[i] != rest[j]);
                } else if blocks[i] == block {
                    assert(rest[i] == block);
                }
            }
        }
    }
}

proof fn lemma_with_unique(builder: BuilderView, block: Block)
    requires
        builder.labels_are_unique(),
        builder.with_block_label(block).block_labels.last <= usize::MAX,
    ensures
        builder.with_block_label(block).labels_are_unique(),
{
}

proof fn lemma_with_all_unique(builder: BuilderView, blocks: Seq<Block>)
    requires
        builder.labels_are_unique(),
        builder.block_labels.with_all(builder.context, blocks).last <= usize::MAX,
    ensures
        (BuilderView {
            block_labels: builder.block_labels.with_all(builder.context, blocks),
            ..builder
        }).labels_are_unique(),
    decreases blocks.len(),
{
    if blocks.len() > 0 {
        lemma_with_all_grows(builder.block_labels, builder.context, blocks, blocks.len() - 1);
        assert(blocks.take(blocks.len() - 1) =~= blocks.drop_last());
        lemma_with_all_unique(builder, blocks.drop_last());
        let before = BuilderView {
            block_labels: builder.block_labels.with_all(builder.context, blocks.drop_last()),
            ..builder
        };
        if !is_entry_block(builder.context.block(blocks.last())) {
            lemma_with_unique(before, blocks.last());
        }
    }
}

/// The section of a function is a program if and only if no block but an entry block is listed
/// twice in the function.
pub proof fn law_section_assembles_where_blocks_are_distinct(
    builder: BuilderView,
    function: Function,
)
    requires
        builder.wf(),
        builder.with_function(function).block_labels.last <= usize::MAX,
    ensures
        assembles(builder.with_function(function).sections.last().ops)
            <==> labelled_blocks_are_distinct(
            builder.context,
            builder.context.function(function).blocks,
        ),
{
    let after = builder.with_function(function);
    let context = builder.context;
    let labels = after.block_labels.labels;
    let blocks = context.function(function).blocks;
    let code = blocks_ops(context, labels, blocks);
    lemma_with_all_unique(builder, blocks);
    lemma_with_all_extends(builder.block_labels, context, blocks);
    lemma_labels_of_blocks_distinct(context, labels, blocks);
    lemma_blocks_ops_refer_nowhere(context, labels, blocks);
    lemma_labels_distinct_add(setup_ops(), code);
    lemma_labels_distinct_add(setup_ops() + code, trap_ops());
    assert(labels_distinct(setup_ops()));
    assert(labels_distinct(trap_ops()));
}

/// The contract is a program if and only if the code of its functions is one.
pub proof fn law_contract_assembles_where_its_functions_do(builder: BuilderView)
    requires
        builder.wf(),
    ensures
        assembles(contract_section(builder.sections).ops) <==> assembles(
            joined_ops(builder.sections),
        ),
{
    let body = joined_ops(builder.sections);
    let ctor = deploying_ops(code_len(body) as usize);
    lemma_joined_refers_nowhere(builder.sections);
    lemma_labels_distinct_add(ctor, body);
    assert(refers_nowhere(ctor));
    assert(forall|i: int| 0 <= i < ctor.len() ==> !(#[trigger] ctor[i] is Label));
}

/// A call keeps the context and the labels there are, and the numbers of labels only grow.
proof fn lemma_call_grows(builder: BuilderView, call: Call)
    ensures
        ({
            let after = builder.after(call);
            &&& after.context == builder.context
            &&& builder.block_labels.last <= after.block_labels.last
            &&& builder.block_labels.labels.submap_of(after.block_labels.labels)
            &&& builder.func_labels.submap_of(after.func_labels)
        }),
{
    if let Call::CompileFunction(function) = call {
        law_labels_are_kept(builder, function);
    }
}

proof fn lemma_calls_grow(builder: BuilderView, calls: Seq<Call>, n: int)
    requires
        0 <= n <= calls.len(),
    ensures
        ({
            let before = builder.after_all(calls.take(n));
            let after = builder.after_all(calls);
            &&& after.context == before.context
            &&& before.block_labels.last <= after.block_labels.last
            &&& before.block_labels.labels.submap_of(after.block_labels.labels)
            &&& before.func_labels.submap_of(after.func_labels)
        }),
    decreases calls.len(),
{
    if n < calls.len() {
        let rest = calls.drop_last();
        assert(rest.take(n) =~= calls.take(n));
        lemma_calls_grow(builder, rest, n);
        lemma_call_grows(builder.after_all(rest), calls.last());
        let before = builder.after_all(calls.take(n));
        let after = builder.after_all(calls);
        let middle = builder.after_all(rest);
        lemma_submap_of_trans(
            before.block_labels.labels,
            middle.block_labels.labels,
            after.block_labels.labels,
        );
        lemma_submap_of_trans(before.func_labels, middle.func_labels, after.func_labels);
    } else {
        assert(calls.take(n) =~= calls);
    }
}

/// Asking for the labels of a function again changes nothing and gives the same labels, whatever is
/// called between.
pub proof fn law_function_labels_are_made_once(
    builder: BuilderView,
    function: Function,
    calls: Seq<Call>,
)
    ensures
        ({
            let once = builder.with_func_labels(function);
            let later = once.after_all(calls);
            &&& later.with_func_labels(function) == later
            &&& later.func_labels[function.index] == once.func_labels[function.index]
        }),
{
    let once = builder.with_func_labels(function);
    lemma_calls_grow(once, calls, 0);
    assert(calls.take(0) =~= seq![]);
    assert(once.func_labels.contains_key(function.index));
}

/// Compiling a function again makes no new labels and repeats its section, whatever is called
/// between.
pub proof fn law_compiling_again_repeats_the_section(
    builder: BuilderView,
    function: Function,
    calls: Seq<Call>,
)
    ensures
        ({
            let once = builder.with_function(function);
            let later = once.after_all(calls);
            later.with_function(function) == (BuilderView {
                sections: later.sections.push(once.sections.last()),
                cur_section: None,
                ..later
            })
        }),
{
    let context = builder.context;
    let once = builder.with_function(function);
    let later = once.after_all(calls);
    let blocks = context.function(function).blocks;
    let known = once.block_labels.labels;
    let labels = later.block_labels.labels;
    lemma_calls_grow(once, calls, 0);
    assert(calls.take(0) =~= seq![]);
    lemma_with_all_extends(builder.block_labels, context, blocks);
    assert forall|i: int|
        0 <= i < blocks.len() && !is_entry_block(
            context.block(#[trigger] blocks[i]),
        ) implies labels.contains_key(blocks[i].index) && known[blocks[i].index]
        == labels[blocks[i].index] by {
        assert(known.contains_key(blocks[i].index));
    }
    lemma_with_all_again(later.block_labels, context, blocks);
    lemma_blocks_ops_agree(context, known, labels, blocks);
}

proof fn lemma_call_keeps_wf(builder: BuilderView, call: Call)
    requires
        builder.wf(),
        builder.after(call).block_labels.last <= usize::MAX,
    ensures
        builder.after(call).wf(),
{
    match call {
        Call::CompileFunction(function) => {
            let context = builder.context;
            let blocks = context.function(function).blocks;
            let after = builder.after(call);
            let labels = after.block_labels.labels;
            let sections = after.sections;
            lemma_with_all_unique(builder, blocks);
            assert(after.labels_are_unique()) by {
                let labelled = BuilderView { block_labels: after.block_labels, ..builder };
                assert(labelled.labels_are_unique());
                assert(labelled.func_labels == after.func_labels);
            }
            lemma_blocks_ops_refer_nowhere(context, labels, blocks);
            assert(refers_nowhere(sections.last().ops));
            assert forall|i: int| 0 <= i < sections.len() implies refers_nowhere(
                (#[trigger] sections[i]).ops,
            ) by {
                if i < builder.sections.len() {
                    assert(sections[i] == builder.sections[i]);
                }
            }
        },
        Call::BlockToLabel(block) => lemma_with_unique(builder, block),
        Call::InsertBlockLabel(block) => {
            if !is_entry_block(builder.context.block(block)) {
                lemma_with_unique(builder, block);
            }
        },
        _ => {},
    }
}

/// The code generator stays well-formed, whatever is called, as long as there are labels left.
pub proof fn law_calls_keep_the_labels_unique(builder: BuilderView, calls: Seq<Call>)
    requires
        builder.wf(),
        builder.after_all(calls).block_labels.last <= usize::MAX,
    ensures
        builder.after_all(calls).wf(),
    decreases calls.len(),
{
    if calls.len() > 0 {
        let rest = calls.drop_last();
        lemma_call_grows(builder.after_all(rest), calls.last());
        law_calls_keep_the_labels_unique(builder, rest);
        lemma_call_keeps_wf(builder.after_all(rest), calls.last());
    }
}

/// The label of a block is one that it had, or a new one.
proof fn lemma_with_all_labels(labels: BlockLabels, context: ContextView, blocks: Seq<Block>)
    requires
        labels.with_all(context, blocks).last <= usize::MAX,
    ensures
        ({
            let after = labels.with_all(context, blocks);
            &&& labels.last <= after.last
            &&& forall|b: usize| #[trigger]
                after.labels.contains_key(b) ==> {
                    ||| labels.labels.contains_key(b) && labels.labels[b] == after.labels[b]
                    ||| labels.last < after.labels[b].0 <= after.last
                }
        }),
    decreases blocks.len(),
{
    if blocks.len() > 0 {
        lemma_with_all_grows(labels, context, blocks, blocks.len() - 1);
        assert(blocks.take(blocks.len() - 1) =~= blocks.drop_last());
        lemma_with_all_labels(labels, context, blocks.drop_last());
    }
}

/// A label that is handed out is at most the one made last, and if it was not in use before, it is
/// greater than the one that was the last before the call.
proof fn lemma_handed_out(builder: BuilderView, call: Call, label: Label)
    requires
        builder.wf(),
        builder.after(call).block_labels.last <= usize::MAX,
        builder.hands_out(call, label),
    ensures
        label.0 <= builder.after(call).block_labels.last,
        builder.is_in_use(label) || builder.block_labels.last < label.0,
{
    lemma_call_keeps_wf(builder, call);
    match call {
        Call::CompileFunction(function) => {
            let blocks = builder.context.function(function).blocks;
            let labels = builder.after(call).block_labels.labels;
            lemma_with_all_extends(builder.block_labels, builder.context, blocks);
            lemma_with_all_labels(builder.block_labels, builder.context, blocks);
            let i = choose|i: int|
                0 <= i < blocks.len() && !is_entry_block(
                    builder.context.block(#[trigger] blocks[i]),
                ) && label == labels[blocks[i].index];
            assert(labels.contains_key(blocks[i].index));
        },
        Call::FuncToLabels(function) => {
            assert(builder.after(call).func_labels.contains_key(function.index));
            if builder.func_labels.contains_key(function.index) {
                assert(builder.is_in_use(label));
            }
        },
        Call::BlockToLabel(block) => {
            assert(builder.after(call).block_labels.labels.contains_key(block.index));
        },
        Call::InsertBlockLabel(block) => {
            assert(builder.after(call).block_labels.labels.contains_key(block.index));
        },
        _ => {},
    }
}

/// A label that was handed out is at most the label made last.
proof fn lemma_earlier_label(builder: BuilderView, calls: Seq<Call>, i: int, earlier: Label)
    requires
        builder.wf(),
        builder.after_all(calls).block_labels.last <= usize::MAX,
        0 <= i < calls.len(),
        builder.after_all(calls.take(i)).hands_out(calls[i], earlier),
    ensures
        earlier.0 <= builder.after_all(calls).block_labels.last,
{
    let before = calls.take(i);
    let until = calls.take(i + 1);
    assert(until.drop_last() =~= before);
    assert(until.last() == calls[i]);
    lemma_calls_grow(builder, calls, i);
    lemma_calls_grow(builder, calls, i + 1);
    law_calls_keep_the_labels_unique(builder, before);
    lemma_handed_out(builder.after_all(before), calls[i], earlier);
}

/// A label that is made is the next one, and so greater than every label that any call handed out
/// before, and than every label of a block or a function.
pub proof fn law_labels_that_are_made_are_greater(
    builder: BuilderView,
    calls: Seq<Call>,
    i: int,
    earlier: Label,
    made: Label,
)
    requires
        builder.wf(),
        builder.after_all(calls).block_labels.last < usize::MAX,
        0 <= i < calls.len(),
        builder.after_all(calls.take(i)).hands_out(calls[i], earlier),
        builder.after_all(calls).hands_out(Call::GetLabel, made),
    ensures
        made.0 == builder.after_all(calls).block_labels.last + 1,
        earlier.0 < made.0,
        builder.after_all(calls).is_new(made),
{
    lemma_earlier_label(builder, calls, i, earlier);
    law_calls_keep_the_labels_unique(builder, calls);
}

/// Whatever call hands out a label, it belonged to a block or a function already, or it is greater
/// than every label that any call handed out before.
pub proof fn law_labels_are_in_use_or_greater(
    builder: BuilderView,
    calls: Seq<Call>,
    i: int,
    earlier: Label,
    call: Call,
    label: Label,
)
    requires
        builder.wf(),
        builder.after_all(calls).after(call).block_labels.last <= usize::MAX,
        0 <= i < calls.len(),
        builder.after_all(calls.take(i)).hands_out(calls[i], earlier),
        builder.after_all(calls).hands_out(call, label),
    ensures
        builder.after_all(calls).is_in_use(label) || earlier.0 < label.0,
{
    lemma_call_grows(builder.after_all(calls), call);
    law_calls_keep_the_labels_unique(builder, calls);
    lemma_earlier_label(builder, calls, i, earlier);
    lemma_handed_out(builder.after_all(calls), call, label);
}

/// Two blocks have the same label if and only if they are the same block, whatever is called
/// between, and no function has that label.
pub proof fn law_block_labels_tell_blocks_apart(
    builder: BuilderView,
    x: Block,
    calls: Seq<Call>,
    y: Block,
)
    requires
        builder.wf(),
        builder.with_block_label(x).after_all(calls).with_block_label(y).block_labels.last
            <= usize::MAX,
    ensures
        ({
            let first = builder.with_block_label(x);
            let second = first.after_all(calls).with_block_label(y);
            let label = second.block_labels.labels[y.index];
            &&& first.block_labels.labels[x.index] == label <==> x == y
            &&& forall|f: Function|
                (#[trigger] second.with_func_labels(f)).block_labels.last <= usize::MAX ==> {
                    let ends = second.with_func_labels(f).func_labels[f.index];
                    label != ends.0 && label != ends.1
                }
        }),
{
    let first = builder.with_block_label(x);
    let between = first.after_all(calls);
    let second = between.with_block_label(y);
    lemma_call_grows(between, Call::BlockToLabel(y));
    lemma_calls_grow(first, calls, 0);
    assert(calls.take(0) =~= seq![]);
    lemma_call_keeps_wf(builder, Call::BlockToLabel(x));
    law_calls_keep_the_labels_unique(first, calls);
    lemma_call_keeps_wf(between, Call::BlockToLabel(y));
    assert(first.block_labels.labels.contains_key(x.index));
    assert(second.block_labels.labels.contains_key(x.index));
    assert(second.block_labels.labels.contains_key(y.index));
    assert forall|f: Function|
        (#[trigger] second.with_func_labels(f)).block_labels.last <= usize::MAX implies {
        let ends = second.with_func_labels(f).func_labels[f.index];
        second.block_labels.labels[y.index] != ends.0 && second.block_labels.labels[y.index]
            != ends.1
    } by {
        lemma_call_keeps_wf(second, Call::FuncToLabels(f));
        assert(second.with_func_labels(f).func_labels.contains_key(f.index));
    }
}

/// The labels that the operations declare, in order.
spec fn labels_in(ops: Seq<OpView>) -> Seq<OpView>
    decreases ops.len(),
{
    if ops.len() == 0 {
        seq![]
    } else if ops.last() is Label {
        labels_in(ops.drop_last()).push(ops.last())
    } else {
        labels_in(ops.drop_last())
    }
}

proof fn lemma_labels_in_add(a: Seq<OpView>, b: Seq<OpView>)
    ensures
        labels_in(a + b) == labels_in(a) + labels_in(b),
    decreases b.len(),
{
    if b.len() == 0 {
        assert(a + b =~= a);
        assert(labels_in(a) + labels_in(b) =~= labels_in(a));
    } else {
        assert((a + b).drop_last() =~= a + b.drop_last());
        lemma_labels_in_add(a, b.drop_last());
        assert(labels_in(a + b) =~= labels_in(a) + labels_in(b));
    }
}

proof fn lemma_labels_in_contains(ops: Seq<OpView>, op: OpView)
    requires
        op is Label,
    ensures
        labels_in(ops).contains(op) <==> ops.contains(op),
    decreases ops.len(),
{
    if ops.len() > 0 {
        let rest = ops.drop_last();
        lemma_labels_in_contains(rest, op);
        assert(ops =~= rest.push(ops.last()));
        if ops.last() is Label {
            lemma_push_contains(labels_in(rest), ops.last(), op);
        }
        lemma_push_contains(rest, ops.last(), op);
    }
}

proof fn lemma_push_contains(ops: Seq<OpView>, last: OpView, op: OpView)
    ensures
        ops.push(last).contains(op) <==> ops.contains(op) || last == op,
{
    let all = ops.push(last);
    if ops.contains(op) {
        assert(all[ops.index_of(op)] == op);
    }
    if last == op {
        assert(all[ops.len() as int] == op);
    }
    if all.contains(op) {
        let i = all.index_of(op);
        if i < ops.len() {
            assert(ops[i] == op);
        }
    }
}

/// Whether labels are distinct depends on the labels alone.
proof fn lemma_labels_in_distinct(ops: Seq<OpView>)
    ensures
        labels_distinct(ops) <==> labels_distinct(labels_in(ops)),
    decreases ops.len(),
{
    if ops.len() > 0 {
        let rest = ops.drop_last();
        let last = seq![ops.last()];
        lemma_labels_in_distinct(rest);
        lemma_labels_distinct_add(rest, last);
        assert(ops =~= rest + last);
        if ops.last() is Label {
            lemma_labels_in_contains(rest, ops.last());
            lemma_labels_distinct_add(labels_in(rest), last);
            assert(labels_in(ops) =~= labels_in(rest) + last);
            assert(last[0] == ops.last());
        }
    }
}

proof fn lemma_no_labels(ops: Seq<OpView>)
    requires
        forall|i: int| 0 <= i < ops.len() ==> !(#[trigger] ops[i] is Label),
    ensures
        labels_in(ops) == Seq::<OpView>::empty(),
    decreases ops.len(),
{
    if ops.len() > 0 {
        let rest = ops.drop_last();
        assert(forall|i: int| 0 <= i < rest.len() ==> rest[i] == ops[i]);
        assert(!(ops[ops.len() - 1] is Label));
        lemma_no_labels(rest);
    }
}

proof fn lemma_blocks_ops_add(
    context: ContextView,
    labels: Map<usize, Label>,
    a: Seq<Block>,
    b: Seq<Block>,
)
    ensures
        blocks_ops(context, labels, a + b) == blocks_ops(context, labels, a) + blocks_ops(
            context,
            labels,
            b,
        ),
    decreases b.len(),
{
    if b.len() == 0 {
        assert(a + b =~= a);
        assert(blocks_ops(context, labels, a) + blocks_ops(context, labels, b) =~= blocks_ops(
            context,
            labels,
            a,
        ));
    } else {
        assert((a + b).drop_last() =~= a + b.drop_last());
        lemma_blocks_ops_add(context, labels, a, b.drop_last());
        assert(blocks_ops(context, labels, a + b) =~= blocks_ops(context, labels, a) + blocks_ops(
            context,
            labels,
            b,
        ));
    }
}

/// A section that is added declares its own labels behind those there are.
proof fn lemma_labels_in_joined(sections: Seq<SectionView>, section: SectionView)
    ensures
        labels_in(joined_ops(sections.push(section))) == labels_in(joined_ops(sections))
            + labels_in(section.ops),
{
    let all = sections.push(section);
    let invalid = seq![OpView::Invalid];
    assert(all.drop_last() =~= sections);
    if sections.len() == 0 {
        assert(labels_in(joined_ops(sections)) + labels_in(section.ops) =~= labels_in(section.ops));
    } else {
        lemma_labels_in_add(joined_ops(sections) + invalid, section.ops);
        lemma_labels_in_add(joined_ops(sections), invalid);
        lemma_no_labels(invalid);
        assert(labels_in(joined_ops(sections)) + labels_in(invalid) =~= labels_in(
            joined_ops(sections),
        ));
    }
}

/// The section of a function declares the labels of its blocks.
proof fn lemma_labels_in_section(
    context: ContextView,
    labels: Map<usize, Label>,
    function: Function,
)
    ensures
        labels_in(function_section(context, labels, function).ops) == labels_in(
            blocks_ops(context, labels, context.function(function).blocks),
        ),
{
    let code = blocks_ops(context, labels, context.function(function).blocks);
    lemma_labels_in_add(setup_ops() + code, trap_ops());
    lemma_labels_in_add(setup_ops(), code);
    lemma_no_labels(setup_ops());
    lemma_no_labels(trap_ops());
    assert(labels_in(setup_ops()) + labels_in(code) + labels_in(trap_ops()) =~= labels_in(code));
}

/// The blocks of all functions that were compiled have labels, and the code declares these labels,
/// in order.
proof fn lemma_labels_of_calls(builder: BuilderView, calls: Seq<Call>)
    requires
        builder.sections.len() == 0,
    ensures
        ({
            let after = builder.after_all(calls);
            let labels = after.block_labels.labels;
            let blocks = blocks_of(builder.context, compiled_functions(calls));
            &&& after.context == builder.context
            &&& forall|i: int|
                0 <= i < blocks.len() && !is_entry_block(
                    builder.context.block(#[trigger] blocks[i]),
                ) ==> labels.contains_key(blocks[i].index)
            &&& labels_in(joined_ops(after.sections)) == labels_in(
                blocks_ops(builder.context, labels, blocks),
            )
        }),
    decreases calls.len(),
{
    let context = builder.context;
    if calls.len() > 0 {
        let rest = calls.drop_last();
        let before = builder.after_all(rest);
        let after = builder.after_all(calls);
        let known = before.block_labels.labels;
        let labels = after.block_labels.labels;
        let blocks = blocks_of(context, compiled_functions(rest));
        lemma_labels_of_calls(builder, rest);
        lemma_call_grows(before, calls.last());
        assert forall|i: int|
            0 <= i < blocks.len() && !is_entry_block(
                context.block(#[trigger] blocks[i]),
            ) implies labels.contains_key(blocks[i].index) && known[blocks[i].index]
            == labels[blocks[i].index] by {
            assert(known.contains_key(blocks[i].index));
        }
        lemma_blocks_ops_agree(context, known, labels, blocks);
        if let Call::CompileFunction(function) = calls.last() {
            let own = context.function(function).blocks;
            let functions = compiled_functions(calls);
            assert(functions.drop_last() =~= compiled_functions(rest));
            assert(blocks_of(context, functions) == blocks + own);
            lemma_with_all_extends(before.block_labels, context, own);
            lemma_blocks_ops_add(context, labels, blocks, own);
            lemma_labels_in_add(
                blocks_ops(context, labels, blocks),
                blocks_ops(context, labels, own),
            );
            lemma_labels_in_joined(
                before.sections,
                function_section(context, labels, function),
            );
            lemma_labels_in_section(context, labels, function);
            assert forall|i: int|
                0 <= i < (blocks + own).len() && !is_entry_block(
                    context.block(#[trigger] (blocks + own)[i]),
                ) implies labels.contains_key((blocks + own)[i].index) by {
                if i < blocks.len() {
                    assert((blocks + own)[i] == blocks[i]);
                } else {
                    assert((blocks + own)[i] == own[i - blocks.len()]);
                }
            }
        }
    }
}

/// No label stands twice in a contract, in one section or in two, if and only if no block but an
/// entry block is listed twice among all functions that were compiled, whatever else was called.
/// The contract is a program if and only if that is so, and then every section is one, too.
pub proof fn law_contract_assembles_where_blocks_are_distinct(
    program_kind: ProgramKind,
    context: ContextView,
    calls: Seq<Call>,
)
    requires
        BuilderView::initial(program_kind, context).after_all(calls).block_labels.last
            <= usize::MAX,
    ensures
        ({
            let builder = BuilderView::initial(program_kind, context).after_all(calls);
            let distinct = labelled_blocks_are_distinct(
                context,
                blocks_of(context, compiled_functions(calls)),
            );
            &&& labels_distinct(joined_ops(builder.sections)) <==> distinct
            &&& labels_distinct(contract_section(builder.sections).ops) <==> distinct
            &&& assembles(contract_section(builder.sections).ops) <==> distinct
            &&& distinct ==> builder.sections_assemble()
        }),
{
    let initial = BuilderView::initial(program_kind, context);
    let builder = initial.after_all(calls);
    let labels = builder.block_labels.labels;
    let blocks = blocks_of(context, compiled_functions(calls));
    let body = joined_ops(builder.sections);
    let ctor = deploying_ops(code_len(body) as usize);
    law_calls_keep_the_labels_unique(initial, calls);
    lemma_labels_of_calls(initial, calls);
    lemma_labels_of_blocks_distinct(context, labels, blocks);
    lemma_labels_in_distinct(body);
    lemma_labels_in_distinct(blocks_ops(context, labels, blocks));
    lemma_joined_refers_nowhere(builder.sections);
    lemma_labels_distinct_add(ctor, body);
    assert(forall|i: int| 0 <= i < ctor.len() ==> !(#[trigger] ctor[i] is Label));
    law_contract_assembles_where_its_functions_do(builder);
    if labelled_blocks_are_distinct(context, blocks) {
        lemma_sections_assemble(initial, calls);
    }
}

proof fn lemma_sections_assemble(builder: BuilderView, calls: Seq<Call>)
    requires
        builder.wf(),
        builder.sections.len() == 0,
        builder.after_all(calls).block_labels.last <= usize::MAX,
        labelled_blocks_are_distinct(
            builder.context,
            blocks_of(builder.context, compiled_functions(calls)),
        ),
    ensures
        builder.after_all(calls).sections_assemble(),
    decreases calls.len(),
{
    if calls.len() > 0 {
        let context = builder.context;
        let rest = calls.drop_last();
        let before = builder.after_all(rest);
        let blocks = blocks_of(context, compiled_functions(rest));
        lemma_call_grows(before, calls.last());
        law_calls_keep_the_labels_unique(builder, rest);
        lemma_labels_of_calls(builder, rest);
        if let Call::CompileFunction(function) = calls.last() {
            let own = context.function(function).blocks;
            let all = blocks + own;
            let functions = compiled_functions(calls);
            assert(functions.drop_last() =~= compiled_functions(rest));
            assert(blocks_of(context, functions) == all);
            assert forall|i: int, j: int|
                #![trigger blocks[i], blocks[j]]
                0 <= i < j < blocks.len() && !is_entry_block(
                    context.block(blocks[i]),
                ) implies blocks[i] != blocks[j] by {
                assert(all[i] == blocks[i] && all[j] == blocks[j]);
            }
            assert forall|i: int, j: int|
                #![trigger own[i], own[j]]
                0 <= i < j < own.len() && !is_entry_block(
                    context.block(own[i]),
                ) implies own[i] != own[j] by {
                assert(all[blocks.len() + i] == own[i] && all[blocks.len() + j] == own[j]);
            }
            lemma_sections_assemble(builder, rest);
            law_section_assembles_where_blocks_are_distinct(before, function);
        } else {
            lemma_sections_assemble(builder, rest);
        }
    }
}

/// Every block of the functions has a place in one of them.
proof fn lemma_blocks_of_index(context: ContextView, functions: Seq<Function>, k: int) -> (res: (
    int,
    int,
))
    requires
        0 <= k < blocks_of(context, functions).len(),
    ensures
        0 <= res.0 < functions.len(),
        0 <= res.1 < context.function(functions[res.0]).blocks.len(),
        blocks_of(context, functions)[k] == context.function(functions[res.0]).blocks[res.1],
        k == blocks_of(context, functions.take(res.0)).len() + res.1,
    decreases functions.len(),
{
    let rest = functions.drop_last();
    let before = blocks_of(context, rest);
    if k < before.len() {
        let res = lemma_blocks_of_index(context, rest, k);
        assert(rest.take(res.0) =~= functions.take(res.0));
        res
    } else {
        assert(functions.take(functions.len() - 1) =~= rest);
        (functions.len() - 1, k - before.len())
    }
}

/// Where every block has one place in the program, and no function was compiled twice, no label
/// stands twice in the contract, in one section or in two: the contract and each of its sections
/// are programs, whatever else was called.
pub proof fn law_contract_assembles_where_functions_are_compiled_once(
    program_kind: ProgramKind,
    context: ContextView,
    calls: Seq<Call>,
)
    requires
        BuilderView::initial(program_kind, context).after_all(calls).block_labels.last
            <= usize::MAX,
        blocks_have_one_place(context),
        compiled_functions(calls).no_duplicates(),
        forall|i: int|
            0 <= i < compiled_functions(calls).len() ==> context.has_function(
                #[trigger] compiled_functions(calls)[i],
            ),
    ensures
        ({
            let builder = BuilderView::initial(program_kind, context).after_all(calls);
            &&& builder.sections_assemble()
            &&& labels_distinct(contract_section(builder.sections).ops)
            &&& assembles(contract_section(builder.sections).ops)
        }),
{
    let functions = compiled_functions(calls);
    let blocks = blocks_of(context, functions);
    assert forall|i: int, j: int|
        #![trigger blocks[i], blocks[j]]
        0 <= i < j < blocks.len() && !is_entry_block(context.block(blocks[i])) implies blocks[i]
        != blocks[j] by {
        let a = lemma_blocks_of_index(context, functions, i);
        let b = lemma_blocks_of_index(context, functions, j);
        let f = functions[a.0].index as int;
        let g = functions[b.0].index as int;
        assert(context.has_function(functions[a.0]) && context.has_function(functions[b.0]));
        assert(a != b);
        if a.0 != b.0 {
            assert(functions[a.0] != functions[b.0]);
        }
        assert(context.functions[f].blocks[a.1] == blocks[i]);
        assert(context.functions[g].blocks[b.1] == blocks[j]);
    }
    law_contract_assembles_where_blocks_are_distinct(program_kind, context, calls);
}

} // verus!
