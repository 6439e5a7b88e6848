//! Laws relating translation and execution.
use vstd::prelude::*;
use crate::program::{Cell, Op, op_of, width_of, code_len, cell_at, well_formed};
use crate::translate::{translation_of, close_at, partner, pair_resolved, open_stack, lemma_take_step, lemma_cells_below, lemma_stuck_stays};
use crate::engine::{Machine, Run, next, run, fresh, zero_tape, halted, cursor_valid, current_op, byte_of, wrap_inc, can_step, advance};

verus! {

/// Loop branches of a translated program jump to their partners: at the
/// open, a zero cell jumps just past the matching close and its operand; at
/// the close, a nonzero cell jumps back just past the open and its operand.
/// Otherwise either branch steps over its own operand cell.
pub proof fn lemma_loop_branches(s: Seq<u8>, k: int, m: Machine)
    requires
        translation_of(s, m.program),
        well_formed(m.program),
        close_at(s, k),
        cursor_valid(m),
    ensures
        ({
            let j = partner(s, k);
            let zero = m.memory[m.loc] == 0;
            &&& m.pc == cell_at(s, j) ==> next(m, None).pc == (if zero { cell_at(s, k) + 2 } else { cell_at(s, j) + 2 })
            &&& m.pc == cell_at(s, k) ==> next(m, None).pc == (if zero { cell_at(s, k) + 2 } else { cell_at(s, j) + 2 })
        }),
{
    let j = partner(s, k);
    let p = m.program;
    assert(pair_resolved(s, p, k));
    assert(s.take(s.len() as int) =~= s);
    lemma_cells_below(s, s.len() as int);
    assert(cell_at(s, k) + width_of(s[k]) <= code_len(s));
    assert(op_of(s[j]) == Some(Op::Open));
    assert(op_of(s[k]) == Some(Op::Close));
    assert(p[cell_at(s, j)] == Cell::Op(Op::Open));
    assert(p[cell_at(s, k)] == Cell::Op(Op::Close));
}

/// A close with no open waiting before it dooms the whole source: however
/// the text goes on, translation reports the unmatched close, so nothing of
/// it ever runs.
pub proof fn lemma_unmatched_close(s: Seq<u8>, k: int)
    requires
        close_at(s, k),
        open_stack(s.take(k)) == Some(Seq::<int>::empty()),
    ensures
        open_stack(s) is None,
{
    lemma_take_step(s, k);
    lemma_stuck_stays(s, k + 1, s.len() as int);
    assert(s.take(s.len() as int) =~= s);
}

/// The program of `n` increments followed by one output.
pub open spec fn increments_then_put(n: nat) -> Seq<u8> {
    Seq::new(n, |_i: int| 43u8).push(46u8)
}

/// The value of a zero cell after `k` increments.
pub open spec fn counted(k: nat) -> i8
    decreases k,
{
    if k == 0 { 0i8 } else { wrap_inc(counted((k - 1) as nat)) }
}

proof fn lemma_counted_byte(k: nat)
    ensures
        byte_of(counted(k)) == k % 256,
        counted(k) as int == (if k % 256 < 128 { (k % 256) as int } else { k % 256 - 256 }),
    decreases k,
{
    if k > 0 {
        let k1 = (k - 1) as nat;
        lemma_counted_byte(k1);
        assert(k % 256 == (if k1 % 256 == 255 { 0 } else { k1 % 256 + 1 })) by (nonlinear_arith)
            requires k == k1 + 1;
    }
}

proof fn lemma_layout(n: nat, k: int)
    requires
        0 <= k <= n + 1,
    ensures
        code_len(increments_then_put(n).take(k)) == k,
    decreases k,
{
    if k > 0 {
        let s = increments_then_put(n);
        lemma_layout(n, k - 1);
        lemma_take_step(s, k - 1);
    }
}

pub open spec fn after_increments(p: Seq<Cell>, k: nat) -> Machine {
    Machine { program: p, pc: k as int, memory: zero_tape().update(0, counted(k)), loc: 0 }
}

proof fn lemma_count_up(n: nat, p: Seq<Cell>, input: Seq<u8>, k: nat)
    requires
        k <= n,
        p.len() == n + 2,
        p.len() < usize::MAX,
        forall|i: int| 0 <= i < n ==> p[i] == Cell::Op(Op::Incr),
        p[n as int] == Cell::Op(Op::Put),
        p[n as int + 1] == Cell::Op(Op::Halt),
    ensures
        ({
            let c = run(Run { machine: after_increments(p, k), input, output: Seq::empty() }, (n - k + 2) as nat);
            &&& c.output == seq![byte_of(counted(n))]
            &&& halted(c.machine)
        }),
    decreases n - k,
{
    let m = after_increments(p, k);
    let c = Run { machine: m, input, output: Seq::empty() };
    if k < n {
        assert(current_op(m) == Some(Op::Incr));
        assert(can_step(m));
        assert(m.memory[0] == counted(k));
        assert(next(m, None).memory =~= zero_tape().update(0, counted(k + 1)));
        assert(advance(c) == Run { machine: after_increments(p, k + 1), input, output: Seq::<u8>::empty() });
        lemma_count_up(n, p, input, k + 1);
    } else {
        assert(current_op(m) == Some(Op::Put));
        assert(can_step(m));
        let c1 = advance(c);
        assert(c1.output == seq![byte_of(counted(n))]);
        assert(current_op(c1.machine) == Some(Op::Halt));
        assert(run(c1, 1) == c1);
    }
}

/// Running the translation of `n` increments and one output from a fresh
/// tape writes the single byte `n mod 256` and then stops at the halt.
pub proof fn lemma_increments_then_put(n: nat, p: Seq<Cell>, input: Seq<u8>)
    requires
        translation_of(increments_then_put(n), p),
        well_formed(p),
    ensures
        ({
            let c = run(Run { machine: fresh(p), input, output: Seq::empty() }, n + 2);
            &&& c.output == seq![(n % 256) as u8]
            &&& halted(c.machine)
        }),
{
    let s = increments_then_put(n);
    assert(s.take(s.len() as int) =~= s);
    lemma_layout(n, n as int + 1);
    assert forall|i: int| 0 <= i < n implies p[i] == Cell::Op(Op::Incr) by {
        lemma_layout(n, i);
        assert(op_of(s[i]) is Some);
    }
    lemma_layout(n, n as int);
    assert(op_of(s[n as int]) is Some);
    assert(zero_tape().update(0, counted(0)) =~= zero_tape());
    assert(after_increments(p, 0) == fresh(p));
    lemma_count_up(n, p, input, 0);
    lemma_counted_byte(n);
}

} // verus!
