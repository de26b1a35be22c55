//! The interpreter itself: the instruction tree, the virtual machine with
//! its bounded tape and operation budget, the parser, and the evaluator.

use vstd::assert_seqs_equal;
use vstd::prelude::*;

use crate::semantics::EvalStatus;
use crate::semantics::InstructionModel;
use crate::semantics::VmModel;
use crate::semantics::cell;
use crate::semantics::eval_inst;
use crate::semantics::eval_seq;
use crate::semantics::initial_vm_model;
use crate::semantics::lemma_eval_inst_mono;
use crate::semantics::lemma_eval_seq_append_complete;
use crate::semantics::lemma_eval_seq_append_stop;
use crate::semantics::lemma_eval_seq_mono;
use crate::semantics::lemma_eval_seq_one;
use crate::semantics::spec_parse;
use crate::semantics::spec_parse_from;

verus! {

/// One parsed unit of program behavior: an atomic operation or a bracketed
/// loop block that owns its body.
#[derive(Debug, PartialEq, Eq)]
pub enum Instruction {
    MoveRight,
    MoveLeft,
    Inc,
    Dec,
    Putchar,
    Getchar,
    WhileNotZero(Vec<Instruction>),
}

/// The specification-level instruction an `Instruction` stands for.
pub open spec fn inst_model(inst: Instruction) -> InstructionModel
    decreases inst,
{
    match inst {
        Instruction::MoveRight => InstructionModel::MoveRight,
        Instruction::MoveLeft => InstructionModel::MoveLeft,
        Instruction::Inc => InstructionModel::Inc,
        Instruction::Dec => InstructionModel::Dec,
        Instruction::Putchar => InstructionModel::Putchar,
        Instruction::Getchar => InstructionModel::Getchar,
        Instruction::WhileNotZero(block) => InstructionModel::WhileNotZero(insts_model(block@)),
    }
}

/// The specification-level sequence a vector of instructions stands for.
pub open spec fn insts_model(insts: Seq<Instruction>) -> Seq<InstructionModel>
    decreases insts,
{
    if insts.len() == 0 {
        Seq::<InstructionModel>::empty()
    } else {
        seq![inst_model(insts[0])] + insts_model(insts.drop_first())
    }
}

/// The model sequence is the elementwise model of the vector.
pub proof fn lemma_insts_model_props(s: Seq<Instruction>)
    ensures
        insts_model(s).len() == s.len(),
        forall|k: int| 0 <= k < s.len() ==> #[trigger] insts_model(s)[k] == inst_model(s[k]),
    decreases s,
{
    if s.len() != 0 {
        lemma_insts_model_props(s.drop_first());
    }
}

/// The virtual machine: a fixed tape of byte cells, a cursor, an operation
/// budget, and the output gathered so far. One instance serves exactly one
/// execution.
#[derive(Debug)]
pub struct BrainfuckVM {
    memory_block_limit: i32,
    operation_limit: i32,
    operation_n: i32,
    pointer: usize,
    memory: Vec<u8>,
    output: Vec<u8>,
}

impl View for BrainfuckVM {
    type V = VmModel;

    closed spec fn view(&self) -> VmModel {
        VmModel {
            tape: self.memory@,
            cursor: self.pointer as nat,
            ops: self.operation_n as nat,
            limit: self.operation_limit as nat,
            output: self.output@,
        }
    }
}

impl BrainfuckVM {
    /// The machine is coherent: the tape has the configured length, the
    /// cursor is on the tape, and the counters leave room for one more
    /// counted operation without overflow.
    pub closed spec fn wf(self) -> bool {
        &&& self.memory@.len() == self.memory_block_limit as int
        &&& 1 <= self.memory_block_limit
        &&& self.pointer < self.memory@.len()
        &&& 0 <= self.operation_n
        &&& 0 <= self.operation_limit < i32::MAX
        &&& self.operation_n <= self.operation_limit + 1
    }

    /// A fresh machine: all cells zero, cursor at the left end, no
    /// operations counted yet, nothing output.
    pub fn new(memory_block_limit: i32, operation_limit: i32) -> (vm: BrainfuckVM)
        requires
            1 <= memory_block_limit,
            0 <= operation_limit < i32::MAX,
        ensures
            vm.wf(),
            vm@ == (VmModel {
                tape: Seq::new(memory_block_limit as nat, |k: int| 0u8),
                cursor: 0,
                ops: 0,
                limit: operation_limit as nat,
                output: Seq::<u8>::empty(),
            }),
    {
        let mut memory: Vec<u8> = Vec::new();
        let mut j: i32 = 0;
        while j < memory_block_limit
            invariant
                0 <= j <= memory_block_limit,
                memory@ =~= Seq::new(j as nat, |k: int| 0u8),
            decreases memory_block_limit - j,
        {
            memory.push(0);
            j = j + 1;
        }
        let vm = BrainfuckVM {
            memory_block_limit,
            operation_limit,
            operation_n: 0,
            pointer: 0,
            memory,
            output: Vec::new(),
        };
        proof {
            assert(vm@ =~= (VmModel {
                tape: Seq::new(memory_block_limit as nat, |k: int| 0u8),
                cursor: 0,
                ops: 0,
                limit: operation_limit as nat,
                output: Seq::<u8>::empty(),
            }));
        }
        vm
    }

    /// The byte the cursor rests on.
    pub fn get_data(&self) -> (b: u8)
        requires
            self.wf(),
        ensures
            b == cell(self@),
    {
        self.memory[self.pointer]
    }

    /// Move the cursor one cell to the right and count the operation.
    pub fn move_right(&mut self)
        requires
            old(self).wf(),
            old(self)@.cursor + 1 < old(self)@.tape.len(),
            old(self)@.ops <= old(self)@.limit,
        ensures
            final(self).wf(),
            final(self)@ == (VmModel {
                cursor: old(self)@.cursor + 1,
                ops: old(self)@.ops + 1,
                ..old(self)@
            }),
    {
        self.pointer += 1;
        self.operation_n += 1;
    }

    /// Move the cursor one cell to the left and count the operation.
    pub fn move_left(&mut self)
        requires
            old(self).wf(),
            old(self)@.cursor > 0,
            old(self)@.ops <= old(self)@.limit,
        ensures
            final(self).wf(),
            final(self)@ == (VmModel {
                cursor: (old(self)@.cursor - 1) as nat,
                ops: old(self)@.ops + 1,
                ..old(self)@
            }),
    {
        self.pointer -= 1;
        self.operation_n += 1;
    }

    /// Add one to the current cell, wrapping 255 around to 0, and count the
    /// operation.
    pub fn inc(&mut self)
        requires
            old(self).wf(),
            old(self)@.ops <= old(self)@.limit,
        ensures
            final(self).wf(),
            final(self)@ == (VmModel {
                tape: old(self)@.tape.update(
                    old(self)@.cursor as int,
                    (((cell(old(self)@) as int) + 1) % 256) as u8,
                ),
                ops: old(self)@.ops + 1,
                ..old(self)@
            }),
    {
        if self.memory[self.pointer] == 255 {
            self.memory[self.pointer] = 0;
        } else {
            self.memory[self.pointer] = self.memory[self.pointer] + 1;
        }
        self.operation_n += 1;
    }

    /// Take one from the current cell, wrapping 0 around to 255, and count
    /// the operation.
    pub fn dec(&mut self)
        requires
            old(self).wf(),
            old(self)@.ops <= old(self)@.limit,
        ensures
            final(self).wf(),
            final(self)@ == (VmModel {
                tape: old(self)@.tape.update(
                    old(self)@.cursor as int,
                    (((cell(old(self)@) as int) + 255) % 256) as u8,
                ),
                ops: old(self)@.ops + 1,
                ..old(self)@
            }),
    {
        if self.memory[self.pointer] == 0 {
            self.memory[self.pointer] = 255;
        } else {
            self.memory[self.pointer] = self.memory[self.pointer] - 1;
        }
        self.operation_n += 1;
    }

    /// Append the current cell's value to the output and count the
    /// operation.
    pub fn putchar(&mut self)
        requires
            old(self).wf(),
            old(self)@.ops <= old(self)@.limit,
        ensures
            final(self).wf(),
            final(self)@ == (VmModel {
                output: old(self)@.output + seq![cell(old(self)@)],
                ops: old(self)@.ops + 1,
                ..old(self)@
            }),
    {
        let b = self.memory[self.pointer];
        self.output.push(b);
        self.operation_n += 1;
        proof {
            assert(self.output@ =~= old(self)@.output + seq![cell(old(self)@)]);
        }
    }

    /// Reading input is not supported: reaching this operation fails the
    /// run, before any operation is counted.
    pub fn getchar(&self) -> (status: EvalStatus)
        ensures
            status == EvalStatus::UnsupportedOperation,
    {
        EvalStatus::UnsupportedOperation
    }

    /// Everything the machine has written so far, oldest byte first.
    pub fn output(&self) -> (out: &Vec<u8>)
        ensures
            out@ == self@.output,
    {
        &self.output
    }

    /// Whether the operation count has passed the limit, so that the run
    /// must stop.
    pub fn operation_limit_exceeded(&self) -> (r: bool)
        requires
            self.wf(),
        ensures
            r == (self@.ops > self@.limit),
    {
        self.operation_n > self.operation_limit
    }
}

/// Relies on `str::chars` (through `Iterator::collect`): iterating over a
/// string slice yields exactly the characters of the string, in order.
#[verifier::external_body]
fn chars_of(s: &str) -> (r: Vec<char>)
    ensures
        r@ == s@,
{
    s.chars().collect()
}

/// Parse a program text into an instruction tree. Each recognized symbol
/// becomes one atomic instruction; a `[` opens a nested loop body that runs
/// to its matching `]`; every other character is a comment. The parser is
/// total: malformed bracket nesting is tolerated, never an error.
pub fn parse(program: &str) -> (res: Vec<Instruction>)
    ensures
        insts_model(res@) == spec_parse(program@),
{
    let chars = chars_of(program);
    let (res, _) = parse_from(&chars, 0);
    res
}

/// One nesting level of the parser: scan `chars` from `start`, stopping at
/// the `]` that closes this level (reporting how many characters were
/// consumed, the `]` included) or at the end of the input (reporting the
/// sentinel 0, after which the enclosing scan resumes right after its `[`).
fn parse_from(chars: &Vec<char>, start: usize) -> (r: (Vec<Instruction>, usize))
    requires
        start <= chars@.len(),
    ensures
        insts_model(r.0@) == spec_parse_from(chars@, start as nat).0,
        r.1 as nat == spec_parse_from(chars@, start as nat).1,
    decreases chars@.len() - start,
{
    let mut res: Vec<Instruction> = Vec::new();
    let mut i: usize = start;
    let len = chars.len();
    while i < len
        invariant
            start <= i <= len,
            len == chars@.len(),
            spec_parse_from(chars@, start as nat).0 == insts_model(res@) + spec_parse_from(
                chars@,
                i as nat,
            ).0,
            spec_parse_from(chars@, start as nat).1 == (if spec_parse_from(chars@, i as nat).1
                == 0 {
                0 as int
            } else {
                spec_parse_from(chars@, i as nat).1 + (i - start)
            }),
        decreases len - i,
    {
        let ghost before = res@;
        let c = chars[i];
        if c == '>' {
            res.push(Instruction::MoveRight);
        } else if c == '<' {
            res.push(Instruction::MoveLeft);
        } else if c == '+' {
            res.push(Instruction::Inc);
        } else if c == '-' {
            res.push(Instruction::Dec);
        } else if c == '.' {
            res.push(Instruction::Putchar);
        } else if c == ',' {
            res.push(Instruction::Getchar);
        } else if c == '[' {
            let (block, off) = parse_from(chars, i + 1);
            proof {
                crate::semantics::lemma_parse_consumed_le(chars@, (i + 1) as nat);
            }
            res.push(Instruction::WhileNotZero(block));
            proof {
                lemma_insts_model_push(before, Instruction::WhileNotZero(block));
                assert(insts_model(res@) =~= insts_model(before) + seq![
                    InstructionModel::WhileNotZero(insts_model(block@)),
                ]);
            }
            i += off;
        } else if c == ']' {
            proof {
                assert(insts_model(res@) + spec_parse_from(chars@, i as nat).0 =~= insts_model(
                    res@,
                ));
            }
            return (res, i - start + 1);
        }
        proof {
            if res@ != before {
                lemma_insts_model_push(before, res@[res@.len() - 1]);
            }
            assert_seqs_equal!(
                spec_parse_from(chars@, start as nat).0,
                insts_model(res@) + spec_parse_from(chars@, (i + 1) as nat).0
            );
        }
        i += 1;
    }
    proof {
        assert(insts_model(res@) + spec_parse_from(chars@, i as nat).0 =~= insts_model(res@));
    }
    (res, 0)
}

/// Walk the instruction sequence in order against the machine, recursing
/// into loop bodies: the tree-walking evaluator. The run stops at the
/// first instruction that does not complete, and that abort propagates
/// outward at once: nothing after the halt point runs. The contract ties
/// the machine's final state and the status to the mathematical semantics
/// under some fuel; fuel monotonicity makes that outcome unique.
pub fn eval_by_vm(instructions: &Vec<Instruction>, vm: &mut BrainfuckVM) -> (status: EvalStatus)
    requires
        old(vm).wf(),
        old(vm)@.ops <= old(vm)@.limit,
    ensures
        final(vm).wf(),
        exists|fuel: nat|
            eval_seq(insts_model(instructions@), old(vm)@, fuel) == Some((final(vm)@, status)),
    decreases instructions@,
{
    let ghost s0 = vm@;
    proof {
        assert(instructions@.take(0) =~= Seq::<Instruction>::empty());
        assert(eval_seq(insts_model(instructions@.take(0)), s0, 0) == Some((
            s0,
            EvalStatus::Completed,
        )));
    }
    let n = instructions.len();
    let mut i: usize = 0;
    while i < n
        invariant
            i <= n,
            n == instructions@.len(),
            vm.wf(),
            s0 == old(vm)@,
            s0.ops <= s0.limit,
            vm@.ops <= vm@.limit,
            exists|f: nat|
                eval_seq(insts_model(instructions@.take(i as int)), s0, f) == Some((
                    vm@,
                    EvalStatus::Completed,
                )),
        decreases n - i,
    {
        let ghost pre = vm@;
        let ghost m = inst_model(instructions@[i as int]);
        let inst = &instructions[i];
        let mut status = EvalStatus::Completed;
        match inst {
            Instruction::MoveRight => {
                if vm.pointer + 1 < vm.memory.len() {
                    vm.move_right();
                    if vm.operation_limit_exceeded() {
                        status = EvalStatus::OperationLimitExceeded;
                    }
                } else {
                    status = EvalStatus::CursorOutOfBounds;
                }
                proof {
                    assert(eval_inst(m, pre, 0) == Some((vm@, status)));
                }
            },
            Instruction::MoveLeft => {
                if vm.pointer > 0 {
                    vm.move_left();
                    if vm.operation_limit_exceeded() {
                        status = EvalStatus::OperationLimitExceeded;
                    }
                } else {
                    status = EvalStatus::CursorOutOfBounds;
                }
                proof {
                    assert(eval_inst(m, pre, 0) == Some((vm@, status)));
                }
            },
            Instruction::Inc => {
                vm.inc();
                if vm.operation_limit_exceeded() {
                    status = EvalStatus::OperationLimitExceeded;
                }
                proof {
                    assert(eval_inst(m, pre, 0) == Some((vm@, status)));
                }
            },
            Instruction::Dec => {
                vm.dec();
                if vm.operation_limit_exceeded() {
                    status = EvalStatus::OperationLimitExceeded;
                }
                proof {
                    assert(eval_inst(m, pre, 0) == Some((vm@, status)));
                }
            },
            Instruction::Putchar => {
                vm.putchar();
                if vm.operation_limit_exceeded() {
                    status = EvalStatus::OperationLimitExceeded;
                }
                proof {
                    assert(eval_inst(m, pre, 0) == Some((vm@, status)));
                }
            },
            Instruction::Getchar => {
                status = vm.getchar();
                proof {
                    assert(eval_inst(m, pre, 0) == Some((vm@, status)));
                }
            },
            Instruction::WhileNotZero(block) => {
                let ghost entry = vm@;
                proof {
                    assert(instructions@[i as int] == Instruction::WhileNotZero(*block));
                }
                loop
                    invariant_except_break
                        vm.wf(),
                        vm@.ops <= vm@.limit,
                        status == EvalStatus::Completed,
                        i < instructions@.len(),
                        instructions@[i as int] == Instruction::WhileNotZero(*block),
                        m == InstructionModel::WhileNotZero(insts_model(block@)),
                        forall|g: nat|
                            (#[trigger] eval_inst(m, vm@, g)) is Some ==> exists|g2: nat|
                                eval_inst(m, entry, g2) == eval_inst(m, vm@, g),
                    ensures
                        vm.wf(),
                        status is Completed ==> vm@.ops <= vm@.limit,
                        exists|g2: nat| eval_inst(m, entry, g2) == Some((vm@, status)),
                    decreases vm@.limit + 1 - vm@.ops,
                {
                    if vm.get_data() == 0 {
                        proof {
                            assert(eval_inst(m, vm@, 0) == Some((vm@, EvalStatus::Completed)));
                        }
                        break;
                    }
                    let ghost prev = vm@;
                    let ops_before = vm.operation_n;
                    proof {
                        let elem = instructions@[i as int];
                        assert(decreases_to!(instructions@ => elem));
                        assert(elem == Instruction::WhileNotZero(*block));
                        assert(decreases_to!(elem => elem->WhileNotZero_0));
                        assert(decreases_to!(*block => block@));
                        assert(decreases_to!(instructions@ => block@));
                    }
                    let st = eval_by_vm(block, vm);
                    let ghost fb = choose|f: nat|
                        eval_seq(insts_model(block@), prev, f) == Some((vm@, st));
                    proof {
                        crate::semantics::lemma_eval_seq_preserves(insts_model(block@), prev, fb);
                    }
                    if !(st == EvalStatus::Completed) {
                        status = st;
                        proof {
                            lemma_eval_seq_mono(insts_model(block@), prev, fb, fb + 1);
                            assert(eval_inst(m, prev, fb + 1) == Some((vm@, status)));
                        }
                        break;
                    }
                    if vm.operation_n == ops_before {
                        status = EvalStatus::InfiniteLoop;
                        proof {
                            lemma_eval_seq_mono(insts_model(block@), prev, fb, fb + 1);
                            assert(vm@.ops == prev.ops);
                            assert(eval_inst(m, prev, fb + 1) == Some((
                                vm@,
                                EvalStatus::InfiniteLoop,
                            )));
                        }
                        break;
                    }
                    proof {
                        let cur = vm@;
                        assert forall|g: nat| (#[trigger] eval_inst(m, cur, g)) is Some implies
                            exists|g2: nat| eval_inst(m, entry, g2) == eval_inst(m, cur, g) by {
                            let fbig = ((if fb <= g {
                                g
                            } else {
                                fb
                            }) + 1) as nat;
                            lemma_eval_seq_mono(insts_model(block@), prev, fb, fbig);
                            lemma_eval_inst_mono(m, cur, g, (fbig - 1) as nat);
                            assert(eval_inst(m, prev, fbig) == eval_inst(m, cur, g));
                            assert((eval_inst(m, prev, fbig)) is Some);
                        }
                    }
                }
            },
        }
        proof {
            let f1 = choose|f: nat|
                eval_seq(insts_model(instructions@.take(i as int)), s0, f) == Some((
                    pre,
                    EvalStatus::Completed,
                ));
            let f2 = choose|f: nat| eval_inst(m, pre, f) == Some((vm@, status));
            lemma_eval_seq_one(m, pre, f2);
            lemma_eval_seq_append_complete(
                insts_model(instructions@.take(i as int)),
                seq![m],
                s0,
                pre,
                f1,
                f2,
            );
            assert(instructions@.take(i + 1) =~= instructions@.take(i as int).push(
                instructions@[i as int],
            ));
            lemma_insts_model_push(instructions@.take(i as int), instructions@[i as int]);
            let fboth = if f1 <= f2 {
                f2
            } else {
                f1
            };
            assert(eval_seq(insts_model(instructions@.take(i + 1)), s0, fboth) == Some((
                vm@,
                status,
            )));
            if !(status is Completed) {
                assert(instructions@.take(i + 1) + instructions@.skip(i + 1) =~= instructions@);
                lemma_insts_model_app(instructions@.take(i + 1), instructions@.skip(i + 1));
                lemma_eval_seq_append_stop(
                    insts_model(instructions@.take(i + 1)),
                    insts_model(instructions@.skip(i + 1)),
                    s0,
                    vm@,
                    status,
                    fboth,
                );
            }
        }
        if !(status == EvalStatus::Completed) {
            return status;
        }
        i += 1;
    }
    proof {
        assert(instructions@.take(n as int) =~= instructions@);
    }
    EvalStatus::Completed
}

/// Run a program text: parse it, then execute it on a machine with a tape
/// of 100000 cells and a budget of 100000 operations. Returns what the
/// program wrote to its output, and how the run ended.
pub fn eval(program: String) -> (r: (Vec<u8>, EvalStatus))
    ensures
        exists|fuel: nat, st: VmModel|
            eval_seq(spec_parse(program@), initial_vm_model(100000, 100000), fuel) == Some((
                st,
                r.1,
            )) && r.0@ == st.output,
{
    let mut vm = BrainfuckVM::new(100000, 100000);
    let ghost init = vm@;
    let instructions = parse(program.as_str());
    let status = eval_by_vm(&instructions, &mut vm);
    let ghost st_final = vm@;
    proof {
        let f = choose|fuel: nat|
            eval_seq(insts_model(instructions@), init, fuel) == Some((st_final, status));
        assert(init == initial_vm_model(100000, 100000));
        assert(eval_seq(spec_parse(program@), initial_vm_model(100000, 100000), f) == Some((
            st_final,
            status,
        )));
        assert(vm.output@ == st_final.output);
    }
    (vm.output, status)
}

/// Appending one instruction to a vector appends its model to the model
/// sequence.
proof fn lemma_insts_model_push(s: Seq<Instruction>, x: Instruction)
    ensures
        insts_model(s.push(x)) == insts_model(s) + seq![inst_model(x)],
{
    lemma_insts_model_props(s.push(x));
    lemma_insts_model_props(s);
    assert(insts_model(s.push(x)) =~= insts_model(s) + seq![inst_model(x)]);
}

/// The model of two vectors laid end to end is the two models laid end to
/// end.
proof fn lemma_insts_model_app(a: Seq<Instruction>, b: Seq<Instruction>)
    ensures
        insts_model(a + b) == insts_model(a) + insts_model(b),
{
    lemma_insts_model_props(a + b);
    lemma_insts_model_props(a);
    lemma_insts_model_props(b);
    assert(insts_model(a + b) =~= insts_model(a) + insts_model(b));
}

} // verus!
