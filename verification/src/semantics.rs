//! Mathematical model of the interpreter: specification-level instruction
//! trees, the virtual-machine state, and the meaning of parsing and of
//! executing a program.

use vstd::prelude::*;

verus! {

/// A parsed instruction at the specification level: loop bodies are
/// mathematical sequences rather than vectors.
pub enum InstructionModel {
    MoveRight,
    MoveLeft,
    Inc,
    Dec,
    Putchar,
    Getchar,
    WhileNotZero(Seq<InstructionModel>),
}

/// How a run (or part of a run) of the virtual machine ended.
#[derive(Clone, Copy, Debug, PartialEq, Eq, Structural)]
pub enum EvalStatus {
    /// The instruction sequence was exhausted normally.
    Completed,
    /// An atomic operation pushed the operation count past the limit; the
    /// whole run stops at that point.
    OperationLimitExceeded,
    /// A `Getchar` instruction was reached; reading input is not supported.
    UnsupportedOperation,
    /// A move would have taken the cursor off the tape.
    CursorOutOfBounds,
    /// A full pass through a loop body counted no operation while the
    /// current cell stayed nonzero. Such a pass changes nothing, so every
    /// later pass would repeat it exactly: the run could never end and
    /// never produce anything more, and is reported as stuck instead of
    /// being spun forever.
    InfiniteLoop,
}

/// The state of the virtual machine, as mathematical values.
pub struct VmModel {
    pub tape: Seq<u8>,
    pub cursor: nat,
    pub ops: nat,
    pub limit: nat,
    pub output: Seq<u8>,
}

/// The instruction that one program character stands for, if any;
/// unrecognized characters are comments.
pub open spec fn symbol_model(c: char) -> Option<InstructionModel> {
    if c == '>' {
        Some(InstructionModel::MoveRight)
    } else if c == '<' {
        Some(InstructionModel::MoveLeft)
    } else if c == '+' {
        Some(InstructionModel::Inc)
    } else if c == '-' {
        Some(InstructionModel::Dec)
    } else if c == '.' {
        Some(InstructionModel::Putchar)
    } else if c == ',' {
        Some(InstructionModel::Getchar)
    } else {
        None
    }
}

/// Parsing the suffix of `s` that starts at `i`. Returns the instructions
/// together with the count of characters consumed up to and including the
/// `]` that closed this nesting level, or `0` when the end of the input was
/// reached without one (the same sentinel an unmatched `[` leaves behind:
/// the enclosing scan then resumes right after the `[`).
pub open spec fn spec_parse_from(s: Seq<char>, i: nat) -> (Seq<InstructionModel>, nat)
    decreases s.len() - i,
{
    if i >= s.len() {
        (Seq::<InstructionModel>::empty(), 0 as nat)
    } else if s[i as int] == ']' {
        (Seq::<InstructionModel>::empty(), 1 as nat)
    } else if s[i as int] == '[' {
        let (block, off) = spec_parse_from(s, i + 1);
        let next = if i + off + 1 <= s.len() {
            i + off + 1
        } else {
            s.len()
        };
        let (rest, rest_off) = spec_parse_from(s, next);
        (
            seq![InstructionModel::WhileNotZero(block)] + rest,
            if rest_off == 0 {
                0 as nat
            } else {
                rest_off + off + 1
            },
        )
    } else {
        let (rest, rest_off) = spec_parse_from(s, i + 1);
        let here = match symbol_model(s[i as int]) {
            Some(m) => seq![m],
            None => Seq::<InstructionModel>::empty(),
        };
        (
            here + rest,
            if rest_off == 0 {
                0 as nat
            } else {
                rest_off + 1
            },
        )
    }
}

/// What parsing a whole program text means.
pub open spec fn spec_parse(s: Seq<char>) -> Seq<InstructionModel> {
    spec_parse_from(s, 0).0
}

/// A nesting level never consumes more characters than the suffix holds.
pub proof fn lemma_parse_consumed_le(s: Seq<char>, i: nat)
    requires
        i <= s.len(),
    ensures
        spec_parse_from(s, i).1 <= s.len() - i,
    decreases s.len() - i,
{
    if i >= s.len() {
    } else if s[i as int] == ']' {
    } else if s[i as int] == '[' {
        let (block, off) = spec_parse_from(s, i + 1);
        lemma_parse_consumed_le(s, i + 1);
        let next = if i + off + 1 <= s.len() {
            i + off + 1
        } else {
            s.len()
        };
        lemma_parse_consumed_le(s, next);
    } else {
        lemma_parse_consumed_le(s, i + 1);
    }
}

/// A fresh machine: all cells zero, cursor at the left end, no operations
/// counted yet, nothing output.
pub open spec fn initial_vm_model(mem: nat, limit: nat) -> VmModel {
    VmModel {
        tape: Seq::new(mem, |k: int| 0u8),
        cursor: 0,
        ops: 0,
        limit: limit,
        output: Seq::<u8>::empty(),
    }
}

/// A machine state is coherent when its cursor is on the tape.
pub open spec fn state_ok(st: VmModel) -> bool {
    st.cursor < st.tape.len()
}

/// The byte the cursor rests on.
pub open spec fn cell(st: VmModel) -> u8 {
    st.tape[st.cursor as int]
}

/// Counting one executed operation: the count rises by one, and the run
/// aborts the moment the count passes the limit.
pub open spec fn count_op(st: VmModel) -> (VmModel, EvalStatus) {
    let st2 = VmModel { ops: st.ops + 1, ..st };
    if st.ops + 1 > st.limit {
        (st2, EvalStatus::OperationLimitExceeded)
    } else {
        (st2, EvalStatus::Completed)
    }
}

/// The effect of one atomic (non-loop) instruction on the machine state.
/// A move that would leave the tape fails before touching the state, and a
/// `Getchar` fails before any operation is counted.
pub open spec fn atomic_step(m: InstructionModel, st: VmModel) -> (VmModel, EvalStatus) {
    match m {
        InstructionModel::MoveRight => {
            if st.cursor + 1 < st.tape.len() {
                count_op(VmModel { cursor: st.cursor + 1, ..st })
            } else {
                (st, EvalStatus::CursorOutOfBounds)
            }
        },
        InstructionModel::MoveLeft => {
            if st.cursor > 0 {
                count_op(VmModel { cursor: (st.cursor - 1) as nat, ..st })
            } else {
                (st, EvalStatus::CursorOutOfBounds)
            }
        },
        InstructionModel::Inc => count_op(
            VmModel {
                tape: st.tape.update(st.cursor as int, (((cell(st) as int) + 1) % 256) as u8),
                ..st
            },
        ),
        InstructionModel::Dec => count_op(
            VmModel {
                tape: st.tape.update(st.cursor as int, (((cell(st) as int) + 255) % 256) as u8),
                ..st
            },
        ),
        InstructionModel::Putchar => count_op(VmModel { output: st.output + seq![cell(st)], ..st }),
        InstructionModel::Getchar => (st, EvalStatus::UnsupportedOperation),
        InstructionModel::WhileNotZero(_) => (st, EvalStatus::Completed),
    }
}

/// Executing one instruction. `fuel` bounds only the number of loop
/// iterations that may still be unrolled: `None` means the bound was too
/// small to finish, never that the program misbehaved. A loop whose body
/// completes a pass without counting an operation has changed nothing, so
/// it could only repeat that pass forever: it ends as `InfiniteLoop`.
pub open spec fn eval_inst(m: InstructionModel, st: VmModel, fuel: nat) -> Option<
    (VmModel, EvalStatus),
>
    decreases fuel, m,
{
    match m {
        InstructionModel::WhileNotZero(body) => {
            if cell(st) == 0 {
                Some((st, EvalStatus::Completed))
            } else if fuel == 0 {
                None
            } else {
                match eval_seq(body, st, fuel) {
                    None => None,
                    Some((st2, status)) => {
                        if status is Completed {
                            if st2.ops == st.ops {
                                Some((st2, EvalStatus::InfiniteLoop))
                            } else {
                                eval_inst(m, st2, (fuel - 1) as nat)
                            }
                        } else {
                            Some((st2, status))
                        }
                    },
                }
            }
        },
        _ => Some(atomic_step(m, st)),
    }
}

/// Executing a sequence of instructions in order, stopping at the first
/// instruction that does not complete.
pub open spec fn eval_seq(ms: Seq<InstructionModel>, st: VmModel, fuel: nat) -> Option<
    (VmModel, EvalStatus),
>
    decreases fuel, ms,
{
    if ms.len() == 0 {
        Some((st, EvalStatus::Completed))
    } else {
        match eval_inst(ms[0], st, fuel) {
            None => None,
            Some((st2, status)) => {
                if status is Completed {
                    eval_seq(ms.drop_first(), st2, fuel)
                } else {
                    Some((st2, status))
                }
            },
        }
    }
}

/// More fuel never changes a run of one instruction that already finished.
pub proof fn lemma_eval_inst_mono(m: InstructionModel, st: VmModel, f1: nat, f2: nat)
    requires
        f1 <= f2,
        eval_inst(m, st, f1) is Some,
    ensures
        eval_inst(m, st, f2) == eval_inst(m, st, f1),
    decreases f1, m,
{
    match m {
        InstructionModel::WhileNotZero(body) => {
            if cell(st) != 0 {
                match eval_seq(body, st, f1) {
                    None => {},
                    Some((st2, status)) => {
                        lemma_eval_seq_mono(body, st, f1, f2);
                        if status is Completed && st2.ops != st.ops {
                            lemma_eval_inst_mono(m, st2, (f1 - 1) as nat, (f2 - 1) as nat);
                        }
                    },
                }
            }
        },
        _ => {},
    }
}

/// More fuel never changes a run of a sequence that already finished.
pub proof fn lemma_eval_seq_mono(ms: Seq<InstructionModel>, st: VmModel, f1: nat, f2: nat)
    requires
        f1 <= f2,
        eval_seq(ms, st, f1) is Some,
    ensures
        eval_seq(ms, st, f2) == eval_seq(ms, st, f1),
    decreases f1, ms,
{
    if ms.len() != 0 {
        match eval_inst(ms[0], st, f1) {
            None => {},
            Some((st2, status)) => {
                lemma_eval_inst_mono(ms[0], st, f1, f2);
                if status is Completed {
                    lemma_eval_seq_mono(ms.drop_first(), st2, f1, f2);
                }
            },
        }
    }
}

/// A finished run's outcome does not depend on the fuel that finished it:
/// any two fuels under which a run of a sequence finishes agree on the
/// final state and status. A contract that holds the outcome under some
/// fuel therefore pins it down.
pub proof fn lemma_eval_seq_unique(ms: Seq<InstructionModel>, st: VmModel, f1: nat, f2: nat)
    requires
        eval_seq(ms, st, f1) is Some,
        eval_seq(ms, st, f2) is Some,
    ensures
        eval_seq(ms, st, f1) == eval_seq(ms, st, f2),
{
    if f1 <= f2 {
        lemma_eval_seq_mono(ms, st, f1, f2);
    } else {
        lemma_eval_seq_mono(ms, st, f2, f1);
    }
}

/// What a finished run of one instruction preserves: the state stays
/// coherent, the tape keeps its length, the limit stands, the count never
/// falls, a completed run stays within the limit, and a limit abort happens
/// exactly when the count first passes the limit.
pub proof fn lemma_eval_inst_preserves(m: InstructionModel, st: VmModel, fuel: nat)
    requires
        state_ok(st),
        st.ops <= st.limit,
    ensures
        eval_inst(m, st, fuel) matches Some(res) ==> {
            &&& state_ok(res.0)
            &&& res.0.tape.len() == st.tape.len()
            &&& res.0.limit == st.limit
            &&& st.ops <= res.0.ops
            &&& res.0.ops <= st.limit + 1
            &&& (res.1 is Completed ==> res.0.ops <= st.limit)
            &&& (res.1 is OperationLimitExceeded ==> res.0.ops == st.limit + 1)
        },
    decreases fuel, m,
{
    match m {
        InstructionModel::WhileNotZero(body) => {
            if cell(st) != 0 && fuel > 0 {
                lemma_eval_seq_preserves(body, st, fuel);
                match eval_seq(body, st, fuel) {
                    None => {},
                    Some((st2, status)) => {
                        if status is Completed && st2.ops != st.ops {
                            lemma_eval_inst_preserves(m, st2, (fuel - 1) as nat);
                        }
                    },
                }
            }
        },
        _ => {},
    }
}

/// What a finished run of a sequence preserves; see
/// `lemma_eval_inst_preserves`.
pub proof fn lemma_eval_seq_preserves(ms: Seq<InstructionModel>, st: VmModel, fuel: nat)
    requires
        state_ok(st),
        st.ops <= st.limit,
    ensures
        eval_seq(ms, st, fuel) matches Some(res) ==> {
            &&& state_ok(res.0)
            &&& res.0.tape.len() == st.tape.len()
            &&& res.0.limit == st.limit
            &&& st.ops <= res.0.ops
            &&& res.0.ops <= st.limit + 1
            &&& (res.1 is Completed ==> res.0.ops <= st.limit)
            &&& (res.1 is OperationLimitExceeded ==> res.0.ops == st.limit + 1)
        },
    decreases fuel, ms,
{
    if ms.len() != 0 {
        lemma_eval_inst_preserves(ms[0], st, fuel);
        match eval_inst(ms[0], st, fuel) {
            None => {},
            Some((st2, status)) => {
                if status is Completed {
                    lemma_eval_seq_preserves(ms.drop_first(), st2, fuel);
                }
            },
        }
    }
}

/// Running a single-instruction sequence is running that instruction.
pub proof fn lemma_eval_seq_one(m: InstructionModel, st: VmModel, fuel: nat)
    ensures
        eval_seq(seq![m], st, fuel) == eval_inst(m, st, fuel),
{
    let s = seq![m];
    assert(s.len() == 1);
    assert(s[0] == m);
    assert(s.drop_first() =~= Seq::<InstructionModel>::empty());
    match eval_inst(m, st, fuel) {
        None => {},
        Some((st2, status)) => {
            if status is Completed {
                assert(eval_seq(s.drop_first(), st2, fuel) == Some((st2, EvalStatus::Completed)));
            }
        },
    }
}

/// When the first part of a sequence completes, the whole sequence runs as
/// the first part and then the rest, under fuel enough for both.
pub proof fn lemma_eval_seq_append_complete(
    a: Seq<InstructionModel>,
    b: Seq<InstructionModel>,
    st0: VmModel,
    st1: VmModel,
    f1: nat,
    f2: nat,
)
    requires
        eval_seq(a, st0, f1) == Some((st1, EvalStatus::Completed)),
        eval_seq(b, st1, f2) is Some,
    ensures
        eval_seq(
            a + b,
            st0,
            if f1 <= f2 {
                f2
            } else {
                f1
            },
        ) == eval_seq(b, st1, f2),
    decreases a.len(),
{
    let f = if f1 <= f2 {
        f2
    } else {
        f1
    };
    if a.len() == 0 {
        assert(a + b =~= b);
        lemma_eval_seq_mono(b, st1, f2, f);
    } else {
        match eval_inst(a[0], st0, f1) {
            None => {},
            Some((stm, s0)) => {
                lemma_eval_inst_mono(a[0], st0, f1, f);
                if s0 is Completed {
                    lemma_eval_seq_append_complete(a.drop_first(), b, stm, st1, f1, f2);
                    assert((a + b).drop_first() =~= a.drop_first() + b);
                    assert((a + b)[0] == a[0]);
                }
            },
        }
    }
}

/// When the first part of a sequence stops early, the whole sequence stops
/// there too: nothing after the halt point runs.
pub proof fn lemma_eval_seq_append_stop(
    a: Seq<InstructionModel>,
    b: Seq<InstructionModel>,
    st0: VmModel,
    st1: VmModel,
    r: EvalStatus,
    f1: nat,
)
    requires
        eval_seq(a, st0, f1) == Some((st1, r)),
        !(r is Completed),
    ensures
        eval_seq(a + b, st0, f1) == Some((st1, r)),
    decreases a.len(),
{
    if a.len() != 0 {
        match eval_inst(a[0], st0, f1) {
            None => {},
            Some((stm, s0)) => {
                assert((a + b)[0] == a[0]);
                if s0 is Completed {
                    lemma_eval_seq_append_stop(a.drop_first(), b, stm, st1, r, f1);
                    assert((a + b).drop_first() =~= a.drop_first() + b);
                }
            },
        }
    }
}

} // verus!
