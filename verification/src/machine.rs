//! A small model of the Ethereum virtual machine, and what the code does when it runs.
use vstd::arithmetic::power::pow;
use vstd::prelude::*;

use crate::code_laws::{
    be_value, copy_bytes, law_bytes_of_a_number, law_bytes_of_the_constructor,
    law_bytes_of_the_payable_constructor, push_bytes,
};
use crate::laws::{
    law_constructor_ends_where_its_data_starts, law_constructor_returns_the_code_of_the_functions,
    lemma_code_in_add, lemma_code_in_anywhere,
};
use crate::model::{constructor_ops, contract_section, deploying_ops, joined_ops, BuilderView};
use crate::op::{be_bytes, code_len, lemma_be_bytes_len, machine_code};

verus! {

/// The machine while it runs: the position in the code, the stack, whose top is its last element,
/// and the memory.
pub struct Machine {
    pub pc: nat,
    pub stack: Seq<nat>,
    pub memory: spec_fn(nat) -> u8,
}

/// How far a run has come.
pub enum Outcome {
    Running(Machine),
    Returned(Seq<u8>),
    Reverted(Seq<u8>),
    Failed,
}

/// The byte at a position of the code. Behind the code there are zeros.
pub open spec fn byte_at(code: Seq<u8>, i: nat) -> u8 {
    if i < code.len() {
        code[i as int]
    } else {
        0
    }
}

/// The `len` bytes of the code that start at `start`.
pub open spec fn code_bytes(code: Seq<u8>, start: nat, len: nat) -> Seq<u8> {
    Seq::new(len, |i: int| byte_at(code, (start + i) as nat))
}

/// How many bytes an instruction takes, with its immediate argument.
pub open spec fn width(opcode: u8) -> nat {
    if 0x60 <= opcode <= 0x7f {
        (opcode - 0x5e) as nat
    } else {
        1
    }
}

/// Going from instruction to instruction, from the position `from` on, there is a jump
/// destination at `dest`.
pub open spec fn is_jump_dest(code: Seq<u8>, dest: nat, from: nat) -> bool
    decreases
            if from < code.len() {
                code.len() - from
            } else {
                0
            },
{
    if from >= code.len() {
        false
    } else if from == dest {
        code[from as int] == 0x5b
    } else {
        is_jump_dest(code, dest, from + width(code[from as int]))
    }
}

/// The byte with number `i` of a word of 32 bytes, the most significant first.
pub open spec fn word_byte(word: nat, i: nat) -> u8 {
    ((word as int / pow(256, (31 - i) as nat)) % 256) as u8
}

impl Machine {
    /// The machine before it runs.
    pub open spec fn start() -> Machine {
        Machine { pc: 0, stack: seq![], memory: |i: nat| 0u8 }
    }

    /// The element of the stack at depth `depth`.
    pub open spec fn top(self, depth: int) -> nat {
        self.stack[self.stack.len() - 1 - depth]
    }

    /// The instruction is done: it took `taken` elements from the stack and put `put` on it.
    pub open spec fn next(self, code: Seq<u8>, taken: nat, put: Seq<nat>) -> Machine {
        Machine {
            pc: self.pc + width(byte_at(code, self.pc)),
            stack: self.stack.take(self.stack.len() - taken) + put,
            memory: self.memory,
        }
    }

    /// The `len` bytes of the memory that start at `start`.
    pub open spec fn memory_bytes(self, start: nat, len: nat) -> Seq<u8> {
        Seq::new(len, |i: int| (self.memory)((start + i) as nat))
    }

    /// How many elements an instruction takes from the stack, if it is one that is modelled. The
    /// invalid instruction is none.
    pub open spec fn takes(opcode: u8) -> Option<nat> {
        if opcode == 0x34 || opcode == 0x5b || 0x60 <= opcode <= 0x7f {
            Some(0)
        } else if opcode == 0x15 || opcode == 0x50 || opcode == 0x80 {
            Some(1)
        } else if opcode == 0x52 || opcode == 0x57 || opcode == 0xf3 || opcode == 0xfd {
            Some(2)
        } else if opcode == 0x39 {
            Some(3)
        } else {
            None
        }
    }

    /// Runs one instruction of the code, in a call with which `value` was sent.
    pub open spec fn step(self, code: Seq<u8>, value: nat) -> Outcome {
        let opcode = byte_at(code, self.pc);
        if self.pc >= code.len() {
            Outcome::Returned(seq![])
        } else if Machine::takes(opcode) is None || self.stack.len() < Machine::takes(opcode)->0 {
            Outcome::Failed
        } else if opcode == 0x15 {
            let is_zero: nat = if self.top(0) == 0 {
                1
            } else {
                0
            };
            Outcome::Running(self.next(code, 1, seq![is_zero]))
        } else if opcode == 0x34 {
            Outcome::Running(self.next(code, 0, seq![value]))
        } else if opcode == 0x39 {
            let to = self.top(0);
            let from = self.top(1);
            let len = self.top(2);
            Outcome::Running(
                Machine {
                    memory: |i: nat|
                        if to <= i < to + len {
                            byte_at(code, (from + (i - to)) as nat)
                        } else {
                            (self.memory)(i)
                        },
                    ..self.next(code, 3, seq![])
                },
            )
        } else if opcode == 0x50 {
            Outcome::Running(self.next(code, 1, seq![]))
        } else if opcode == 0x52 {
            let to = self.top(0);
            let word = self.top(1);
            Outcome::Running(
                Machine {
                    memory: |i: nat|
                        if to <= i < to + 32 {
                            word_byte(word, (i - to) as nat)
                        } else {
                            (self.memory)(i)
                        },
                    ..self.next(code, 2, seq![])
                },
            )
        } else if opcode == 0x57 {
            let dest = self.top(0);
            let condition = self.top(1);
            if condition == 0 {
                Outcome::Running(self.next(code, 2, seq![]))
            } else if is_jump_dest(code, dest, 0) {
                Outcome::Running(Machine { pc: dest, ..self.next(code, 2, seq![]) })
            } else {
                Outcome::Failed
            }
        } else if opcode == 0x5b {
            Outcome::Running(self.next(code, 0, seq![]))
        } else if opcode == 0x80 {
            Outcome::Running(self.next(code, 0, seq![self.top(0)]))
        } else if opcode == 0xf3 {
            Outcome::Returned(self.memory_bytes(self.top(0), self.top(1)))
        } else if opcode == 0xfd {
            Outcome::Reverted(self.memory_bytes(self.top(0), self.top(1)))
        } else {
            let constant = be_value(code_bytes(code, self.pc + 1, (width(opcode) - 1) as nat));
            Outcome::Running(self.next(code, 0, seq![constant]))
        }
    }

    /// Runs the code for at most `steps` instructions.
    pub open spec fn run(self, code: Seq<u8>, value: nat, steps: nat) -> Outcome
        decreases steps,
    {
        if steps == 0 {
            Outcome::Running(self)
        } else {
            match self.step(code, value) {
                Outcome::Running(next) => next.run(code, value, (steps - 1) as nat),
                outcome => outcome,
            }
        }
    }
}

proof fn lemma_run_step(m: Machine, next: Machine, code: Seq<u8>, value: nat, steps: nat)
    requires
        steps > 0,
        m.step(code, value) == Outcome::Running(next),
    ensures
        m.run(code, value, steps) == next.run(code, value, (steps - 1) as nat),
{
}

/// A push puts its constant on the stack.
proof fn lemma_step_push(m: Machine, code: Seq<u8>, value: nat, n: usize)
    requires
        m.pc + push_bytes(n).len() <= code.len(),
        code.subrange(m.pc as int, (m.pc + push_bytes(n).len()) as int) == push_bytes(n),
    ensures
        m.step(code, value) == Outcome::Running(
            Machine {
                pc: m.pc + push_bytes(n).len(),
                stack: m.stack.push(n as nat),
                memory: m.memory,
            },
        ),
{
    let bytes = be_bytes(n as nat);
    let part = code.subrange(m.pc as int, (m.pc + push_bytes(n).len()) as int);
    lemma_be_bytes_len(n);
    law_bytes_of_a_number(n as nat);
    assert(code[m.pc as int] == part[0]);
    assert(push_bytes(n)[0] == (0x5f + bytes.len()) as u8);
    assert forall|i: int| 0 <= i < bytes.len() implies byte_at(
        code,
        (m.pc + 1 + i) as nat,
    ) == bytes[i] by {
        assert(part[1 + i] == push_bytes(n)[1 + i]);
        assert(code[m.pc + 1 + i] == part[1 + i]);
    }
    assert(code_bytes(code, m.pc + 1, bytes.len()) =~= bytes);
    assert(m.stack.take(m.stack.len() as int) + seq![n as nat] =~= m.stack.push(n as nat));
}

/// A push of one byte puts the byte on the stack.
proof fn lemma_step_push1(m: Machine, code: Seq<u8>, value: nat, n: u8)
    requires
        m.pc + 2 <= code.len(),
        code[m.pc as int] == 0x60,
        code[m.pc + 1int] == n,
    ensures
        m.step(code, value) == Outcome::Running(
            Machine { pc: m.pc + 2, stack: m.stack.push(n as nat), memory: m.memory },
        ),
{
    let bytes = code_bytes(code, m.pc + 1, 1);
    assert(bytes =~= seq![n]);
    assert(bytes.drop_last() =~= seq![]);
    assert(be_value(bytes.drop_last()) == 0);
    assert(m.stack.take(m.stack.len() as int) + seq![n as nat] =~= m.stack.push(n as nat));
}

/// Code that copies and returns a part of the code, wherever it stands, returns that part.
proof fn lemma_run_copy(
    m: Machine,
    code: Seq<u8>,
    value: nat,
    data_size: usize,
    data_offset: usize,
    steps: nat,
)
    requires
        ({
            let copy = copy_bytes(data_size, data_offset);
            &&& m.pc + copy.len() <= code.len()
            &&& code.subrange(m.pc as int, (m.pc + copy.len()) as int) == copy
        }),
        steps >= 7,
    ensures
        m.run(code, value, steps) == Outcome::Returned(
            code_bytes(code, data_offset as nat, data_size as nat),
        ),
{
    let copy = copy_bytes(data_size, data_offset);
    let size = push_bytes(data_size);
    let offset = push_bytes(data_offset);
    let part = code.subrange(m.pc as int, (m.pc + copy.len()) as int);
    lemma_be_bytes_len(data_size);
    lemma_be_bytes_len(data_offset);
    assert(forall|i: int| 0 <= i < copy.len() ==> part[i] == #[trigger] code[m.pc + i]);

    assert(code.subrange(m.pc as int, (m.pc + size.len()) as int) =~= size) by {
        assert forall|i: int| 0 <= i < size.len() implies code[m.pc + i] == size[i] by {
            assert(copy[i] == size[i]);
            assert(part[i] == code[m.pc + i]);
        }
    }
    lemma_step_push(m, code, value, data_size);
    let m1 = Machine {
        pc: m.pc + size.len(),
        stack: m.stack.push(data_size as nat),
        memory: m.memory,
    };
    lemma_run_step(m, m1, code, value, steps);

    assert(copy[size.len() as int] == 0x80);
    assert(part[size.len() as int] == code[m1.pc as int]);
    let m2 = Machine {
        pc: m1.pc + 1,
        stack: m1.stack.push(data_size as nat),
        memory: m.memory,
    };
    assert(m1.stack.take(m1.stack.len() as int) + seq![data_size as nat] =~= m2.stack);
    lemma_run_step(m1, m2, code, value, (steps - 1) as nat);

    assert(code.subrange(m2.pc as int, (m2.pc + offset.len()) as int) =~= offset) by {
        assert forall|i: int| 0 <= i < offset.len() implies code[m2.pc + i] == offset[i] by {
            assert(copy[size.len() + 1 + i] == offset[i]);
            assert(part[size.len() + 1 + i] == code[m.pc + (size.len() + 1 + i)]);
        }
    }
    lemma_step_push(m2, code, value, data_offset);
    let m3 = Machine {
        pc: m2.pc + offset.len(),
        stack: m2.stack.push(data_offset as nat),
        memory: m.memory,
    };
    lemma_run_step(m2, m3, code, value, (steps - 2) as nat);

    let tail = seq![0x60u8, 0x00, 0x39, 0x60, 0x00, 0xf3];
    assert forall|i: int| 0 <= i < 6 implies #[trigger] code[m3.pc + i] == tail[i] by {
        assert(copy[size.len() + 1 + offset.len() + i] == tail[i]);
        assert(part[size.len() + 1 + offset.len() + i] == code[m.pc + (size.len() + 1
            + offset.len() + i)]);
    }
    assert(code[m3.pc + 0int] == 0x60 && code[m3.pc + 1int] == 0x00 && code[m3.pc + 2int] == 0x39);
    assert(code[m3.pc + 3int] == 0x60 && code[m3.pc + 4int] == 0x00 && code[m3.pc + 5int] == 0xf3);
    lemma_step_push1(m3, code, value, 0x00);
    let m4 = Machine { pc: m3.pc + 2, stack: m3.stack.push(0), memory: m.memory };
    lemma_run_step(m3, m4, code, value, (steps - 3) as nat);

    let m5 = m4.step(code, value)->Running_0;
    assert(m4.top(0) == 0 && m4.top(1) == data_offset && m4.top(2) == data_size);
    assert(m4.step(code, value) == Outcome::Running(m5));
    assert(m5.pc == m4.pc + 1);
    assert(m5.stack =~= m.stack.push(data_size as nat));
    lemma_run_step(m4, m5, code, value, (steps - 4) as nat);

    lemma_step_push1(m5, code, value, 0x00);
    let m6 = Machine { pc: m5.pc + 2, stack: m5.stack.push(0), memory: m5.memory };
    lemma_run_step(m5, m6, code, value, (steps - 5) as nat);

    assert(m6.top(0) == 0 && m6.top(1) == data_size);
    assert(m6.memory_bytes(0, data_size as nat) =~= code_bytes(
        code,
        data_offset as nat,
        data_size as nat,
    ));
}

/// Sets up the memory: three instructions, after which the stack is empty.
proof fn lemma_run_setup(code: Seq<u8>, value: nat, steps: nat) -> (next: Machine)
    requires
        code.len() >= 5,
        code.take(5) == seq![0x60u8, 0x80, 0x60, 0x40, 0x52],
        steps >= 3,
    ensures
        next.pc == 5,
        next.stack == Seq::<nat>::empty(),
        Machine::start().run(code, value, steps) == next.run(code, value, (steps - 3) as nat),
{
    let head = code.take(5);
    assert(code[0] == head[0] && code[1] == head[1] && code[2] == head[2] && code[3] == head[3]
        && code[4] == head[4]);
    let m0 = Machine::start();
    lemma_step_push1(m0, code, value, 0x80);
    let m1 = Machine { pc: 2, stack: m0.stack.push(0x80), memory: m0.memory };
    lemma_run_step(m0, m1, code, value, steps);
    lemma_step_push1(m1, code, value, 0x40);
    let m2 = Machine { pc: 4, stack: m1.stack.push(0x40), memory: m0.memory };
    lemma_run_step(m1, m2, code, value, (steps - 1) as nat);
    let m3 = m2.step(code, value)->Running_0;
    assert(m2.step(code, value) == Outcome::Running(m3));
    assert(m3.stack =~= seq![]);
    lemma_run_step(m2, m3, code, value, (steps - 2) as nat);
    m3
}

/// A constructor that stands at the head of code returns the part of the code that its two numbers
/// name, whatever was sent with the call.
pub proof fn law_constructor_returns_a_part_of_the_code(
    code: Seq<u8>,
    data_size: usize,
    data_offset: usize,
    value: nat,
    steps: nat,
)
    requires
        machine_code(constructor_ops(false, data_size, data_offset)).is_prefix_of(code),
        steps >= 10,
    ensures
        Machine::start().run(code, value, steps) == Outcome::Returned(
            code_bytes(code, data_offset as nat, data_size as nat),
        ),
{
    let setup = seq![0x60u8, 0x80, 0x60, 0x40, 0x52];
    let copy = copy_bytes(data_size, data_offset);
    let all = setup + copy;
    law_bytes_of_the_constructor(data_size, data_offset);
    assert(all =~= code.take(all.len() as int));
    assert forall|i: int| 0 <= i < all.len() implies code[i] == #[trigger] all[i] by {
        assert(code.take(all.len() as int)[i] == code[i]);
    }
    assert(code.take(5) =~= setup) by {
        assert forall|i: int| 0 <= i < 5 implies code[i] == setup[i] by {
            assert(all[i] == setup[i]);
        }
    }
    assert(code.subrange(5, (5 + copy.len()) as int) =~= copy) by {
        assert forall|i: int| 0 <= i < copy.len() implies code[5 + i] == copy[i] by {
            assert(all[5 + i] == copy[i]);
        }
    }
    let m = lemma_run_setup(code, value, steps);
    lemma_run_copy(m, code, value, data_size, data_offset, (steps - 3) as nat);
}

/// Creating a contract, whatever is sent with the call, stores the code of its functions: the run
/// of the contract's code returns that code, and nothing else.
pub proof fn law_running_the_contract_returns_the_code_of_the_functions(
    builder: BuilderView,
    value: nat,
    steps: nat,
)
    requires
        builder.wf(),
        code_len(joined_ops(builder.sections)) <= usize::MAX,
        steps >= 10,
    ensures
        Machine::start().run(
            machine_code(contract_section(builder.sections).ops),
            value,
            steps,
        ) == Outcome::Returned(machine_code(joined_ops(builder.sections))),
{
    let body = joined_ops(builder.sections);
    let data_size = code_len(body) as usize;
    let ctor = deploying_ops(data_size);
    let data_offset = code_len(ctor) as usize;
    let contract = contract_section(builder.sections).ops;
    let code = machine_code(contract);
    law_constructor_returns_the_code_of_the_functions(builder);
    law_constructor_ends_where_its_data_starts(data_size);
    lemma_code_in_add(ctor, body, contract);
    lemma_code_in_anywhere(ctor, contract, ctor);
    assert(machine_code(ctor) =~= code.take(machine_code(ctor).len() as int));
    law_constructor_returns_a_part_of_the_code(code, data_size, data_offset, value, steps);
    let stored = code.subrange(data_offset as int, data_offset + data_size);
    assert(code_bytes(code, data_offset as nat, data_size as nat) =~= stored);
}

/// Runs the guard of a payable constructor: it goes on behind the guard if no ether was sent, and
/// reverts otherwise.
proof fn lemma_run_guard(m: Machine, code: Seq<u8>, value: nat, steps: nat) -> (next: Machine)
    requires
        m.pc == 5,
        m.stack == Seq::<nat>::empty(),
        code.len() >= 17,
        code.take(17) == seq![0x60u8, 0x80, 0x60, 0x40, 0x52] + seq![0x34u8, 0x80, 0x15, 0x60, 0x0f]
            + seq![0x57u8, 0x60, 0x00, 0x80, 0xfd] + seq![0x5bu8, 0x50],
        steps >= 8,
    ensures
        value == 0 ==> next.pc == 17 && m.run(code, value, steps) == next.run(
            code,
            value,
            (steps - 7) as nat,
        ),
        value != 0 ==> m.run(code, value, steps) == Outcome::Reverted(seq![]),
{
    let head = code.take(17);
    assert(forall|i: int| 0 <= i < 17 ==> #[trigger] code[i] == head[i]);
    assert(code[0] == 0x60 && code[2] == 0x60 && code[4] == 0x52);
    assert(code[5] == 0x34 && code[6] == 0x80 && code[7] == 0x15 && code[8] == 0x60);
    assert(code[9] == 0x0f && code[10] == 0x57 && code[11] == 0x60 && code[12] == 0x00);
    assert(code[13] == 0x80 && code[14] == 0xfd && code[15] == 0x5b && code[16] == 0x50);
    let is_zero: nat = if value == 0 {
        1
    } else {
        0
    };
    let m1 = m.step(code, value)->Running_0;
    assert(m.step(code, value) == Outcome::Running(m1));
    assert(m1.stack =~= seq![value]);
    lemma_run_step(m, m1, code, value, steps);
    let m2 = m1.step(code, value)->Running_0;
    assert(m1.step(code, value) == Outcome::Running(m2));
    assert(m2.stack =~= seq![value, value]);
    lemma_run_step(m1, m2, code, value, (steps - 1) as nat);
    let m3 = m2.step(code, value)->Running_0;
    assert(m2.step(code, value) == Outcome::Running(m3));
    assert(m3.stack =~= seq![value, is_zero]);
    lemma_run_step(m2, m3, code, value, (steps - 2) as nat);
    lemma_step_push1(m3, code, value, 0x0f);
    let m4 = Machine { pc: 10, stack: m3.stack.push(0x0f), memory: m3.memory };
    lemma_run_step(m3, m4, code, value, (steps - 3) as nat);
    assert(is_jump_dest(code, 0x0f, 0)) by {
        reveal_with_fuel(is_jump_dest, 13);
    }
    assert(m4.top(0) == 0x0f && m4.top(1) == is_zero);
    let m5 = m4.step(code, value)->Running_0;
    assert(m4.step(code, value) == Outcome::Running(m5));
    assert(m5.stack =~= seq![value]);
    lemma_run_step(m4, m5, code, value, (steps - 4) as nat);
    if value == 0 {
        let m6 = m5.step(code, value)->Running_0;
        assert(m5.step(code, value) == Outcome::Running(m6));
        assert(m6.stack =~= seq![value]);
        lemma_run_step(m5, m6, code, value, (steps - 5) as nat);
        let m7 = m6.step(code, value)->Running_0;
        assert(m6.step(code, value) == Outcome::Running(m7));
        lemma_run_step(m6, m7, code, value, (steps - 6) as nat);
        m7
    } else {
        lemma_step_push1(m5, code, value, 0x00);
        let m6 = Machine { pc: 13, stack: m5.stack.push(0), memory: m5.memory };
        lemma_run_step(m5, m6, code, value, (steps - 5) as nat);
        let m7 = m6.step(code, value)->Running_0;
        assert(m6.step(code, value) == Outcome::Running(m7));
        assert(m7.stack =~= seq![value, 0, 0]);
        lemma_run_step(m6, m7, code, value, (steps - 6) as nat);
        assert(m7.top(0) == 0 && m7.top(1) == 0);
        assert(m7.memory_bytes(0, 0) =~= seq![]);
        m7
    }
}

/// A payable constructor that stands at the head of code reverts if ether was sent with the call,
/// and otherwise returns the part of the code that its two numbers name.
pub proof fn law_payable_constructor_refuses_ether(
    code: Seq<u8>,
    data_size: usize,
    data_offset: usize,
    value: nat,
    steps: nat,
)
    requires
        machine_code(constructor_ops(true, data_size, data_offset)).is_prefix_of(code),
        steps >= 17,
    ensures
        Machine::start().run(code, value, steps) == if value == 0 {
            Outcome::Returned(code_bytes(code, data_offset as nat, data_size as nat))
        } else {
            Outcome::Reverted(seq![])
        },
{
    let setup = seq![0x60u8, 0x80, 0x60, 0x40, 0x52];
    let head = setup + seq![0x34u8, 0x80, 0x15, 0x60, 0x0f] + seq![0x57u8, 0x60, 0x00, 0x80, 0xfd]
        + seq![0x5bu8, 0x50];
    let copy = copy_bytes(data_size, data_offset);
    let all = head + copy;
    law_bytes_of_the_payable_constructor(data_size, data_offset);
    assert(all =~= code.take(all.len() as int));
    assert forall|i: int| 0 <= i < all.len() implies code[i] == #[trigger] all[i] by {
        assert(code.take(all.len() as int)[i] == code[i]);
    }
    assert(code.take(17) =~= head) by {
        assert forall|i: int| 0 <= i < 17 implies code[i] == head[i] by {
            assert(all[i] == head[i]);
        }
    }
    assert(code.take(5) =~= setup) by {
        assert forall|i: int| 0 <= i < 5 implies code[i] == setup[i] by {
            assert(all[i] == head[i]);
        }
    }
    assert(code.subrange(17, (17 + copy.len()) as int) =~= copy) by {
        assert forall|i: int| 0 <= i < copy.len() implies code[17 + i] == copy[i] by {
            assert(all[17 + i] == copy[i]);
        }
    }
    let m = lemma_run_setup(code, value, steps);
    let next = lemma_run_guard(m, code, value, (steps - 3) as nat);
    if value == 0 {
        lemma_run_copy(next, code, value, data_size, data_offset, (steps - 10) as nat);
    }
}

} // verus!
