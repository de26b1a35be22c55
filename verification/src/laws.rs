//! Properties of the interpreter that hold over all inputs, stated and
//! proved once and for all against the semantics in `semantics`.

use vstd::prelude::*;

use crate::semantics::EvalStatus;
use crate::semantics::InstructionModel;
use crate::semantics::VmModel;
use crate::semantics::atomic_step;
use crate::semantics::cell;
use crate::semantics::eval_inst;
use crate::semantics::eval_seq;
use crate::semantics::lemma_eval_seq_append_complete;
use crate::semantics::lemma_eval_seq_append_stop;
use crate::semantics::lemma_eval_seq_one;
use crate::semantics::spec_parse;
use crate::semantics::spec_parse_from;
use crate::semantics::state_ok;
use crate::semantics::symbol_model;

verus! {

/// How many characters of the suffix of `s` starting at `i` stand for an
/// instruction (everything else is a comment).
pub open spec fn recognized_count(s: Seq<char>, i: nat) -> nat
    decreases s.len() - i,
{
    if i >= s.len() {
        0
    } else {
        (if symbol_model(s[i as int]) is Some {
            1 as nat
        } else {
            0 as nat
        }) + recognized_count(s, i + 1)
    }
}

proof fn lemma_parse_atomic_shape_from(s: Seq<char>, i: nat)
    requires
        i <= s.len(),
        forall|k: int| 0 <= k < s.len() ==> s[k] != '[' && s[k] != ']',
    ensures
        spec_parse_from(s, i).0.len() == recognized_count(s, i),
    decreases s.len() - i,
{
    if i < s.len() {
        lemma_parse_atomic_shape_from(s, i + 1);
    }
}

/// For a program without brackets, parsing yields exactly one instruction
/// per recognized symbol: unrecognized characters are dropped and nothing
/// else is added.
pub proof fn lemma_parse_atomic_shape(s: Seq<char>)
    requires
        forall|k: int| 0 <= k < s.len() ==> s[k] != '[' && s[k] != ']',
    ensures
        spec_parse(s).len() == recognized_count(s, 0),
{
    lemma_parse_atomic_shape_from(s, 0);
}

/// Cell arithmetic wraps around: one increment from 255 yields 0, and one
/// decrement from 0 yields 255.
pub proof fn lemma_cell_wraparound(st: VmModel)
    requires
        state_ok(st),
    ensures
        cell(st) == 255 ==> cell(atomic_step(InstructionModel::Inc, st).0) == 0,
        cell(st) == 0 ==> cell(atomic_step(InstructionModel::Dec, st).0) == 255,
{
}

/// Reaching an input instruction fails the run with the unsupported
/// operation error, whatever state earlier execution left the machine in,
/// and changes nothing: no operation is counted first.
pub proof fn lemma_input_unsupported(st: VmModel, fuel: nat)
    ensures
        eval_inst(InstructionModel::Getchar, st, fuel) == Some((
            st,
            EvalStatus::UnsupportedOperation,
        )),
{
}

/// However much of a program ran successfully before, the moment an input
/// instruction is reached the whole run fails with the unsupported
/// operation error, in the very state the prefix left behind: nothing
/// after that point runs.
pub proof fn lemma_input_fails_where_reached(
    ms: Seq<InstructionModel>,
    k: int,
    st0: VmModel,
    stk: VmModel,
    f: nat,
)
    requires
        0 <= k < ms.len(),
        ms[k] == InstructionModel::Getchar,
        eval_seq(ms.take(k), st0, f) == Some((stk, EvalStatus::Completed)),
    ensures
        exists|f2: nat|
            eval_seq(ms, st0, f2) == Some((stk, EvalStatus::UnsupportedOperation)),
{
    lemma_eval_seq_one(InstructionModel::Getchar, stk, f);
    lemma_eval_seq_append_complete(ms.take(k), seq![ms[k]], st0, stk, f, f);
    assert(ms.take(k) + seq![ms[k]] =~= ms.take(k + 1));
    lemma_eval_seq_append_stop(
        ms.take(k + 1),
        ms.skip(k + 1),
        st0,
        stk,
        EvalStatus::UnsupportedOperation,
        f,
    );
    assert(ms.take(k + 1) + ms.skip(k + 1) =~= ms);
    assert(eval_seq(ms, st0, f) == Some((stk, EvalStatus::UnsupportedOperation)));
}

/// When an atomic instruction pushes the operation count past the limit,
/// the whole run halts right there, in the state that instruction left
/// behind: nothing after the halt point runs.
pub proof fn lemma_limit_abort_where_hit(
    ms: Seq<InstructionModel>,
    k: int,
    st0: VmModel,
    stk: VmModel,
    f: nat,
)
    requires
        0 <= k < ms.len(),
        !(ms[k] is WhileNotZero),
        eval_seq(ms.take(k), st0, f) == Some((stk, EvalStatus::Completed)),
        atomic_step(ms[k], stk).1 is OperationLimitExceeded,
    ensures
        exists|f2: nat|
            eval_seq(ms, st0, f2) == Some((
                atomic_step(ms[k], stk).0,
                EvalStatus::OperationLimitExceeded,
            )),
{
    let sta = atomic_step(ms[k], stk).0;
    lemma_eval_seq_one(ms[k], stk, f);
    assert(eval_inst(ms[k], stk, f) == Some((sta, EvalStatus::OperationLimitExceeded)));
    lemma_eval_seq_append_complete(ms.take(k), seq![ms[k]], st0, stk, f, f);
    assert(ms.take(k) + seq![ms[k]] =~= ms.take(k + 1));
    lemma_eval_seq_append_stop(
        ms.take(k + 1),
        ms.skip(k + 1),
        st0,
        sta,
        EvalStatus::OperationLimitExceeded,
        f,
    );
    assert(ms.take(k + 1) + ms.skip(k + 1) =~= ms);
    assert(eval_seq(ms, st0, f) == Some((sta, EvalStatus::OperationLimitExceeded)));
}

} // verus!
