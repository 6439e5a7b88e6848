//! The execution engine: a tape of byte-wide cells, a cursor, and the eight
//! operations dispatched directly from the cells of a translated program.
use vstd::prelude::*;
use crate::program::{Cell, Op, well_formed};
use crate::translate::{TranslateError, translate, translation_of, balanced, open_stack};

verus! {

/// Number of cells on the tape.
pub const MEMORY_SIZE: usize = 30000;

/// Mutable state of one run: the program, the next cell to execute, the
/// tape and the active tape cell.
pub struct Engine {
    pub program: Vec<Cell>,
    pub pc: usize,
    pub memory: Vec<i8>,
    pub loc: usize,
}

/// Mathematical model of an engine state.
pub struct Machine {
    pub program: Seq<Cell>,
    pub pc: int,
    pub memory: Seq<i8>,
    pub loc: int,
}

impl View for Engine {
    type V = Machine;

    open spec fn view(&self) -> Machine {
        Machine { program: self.program@, pc: self.pc as int, memory: self.memory@, loc: self.loc as int }
    }
}

/// A tape cell after an increment, wrapping from the largest value to the smallest.
pub open spec fn wrap_inc(v: i8) -> i8 {
    if v == 127 { -128i8 } else { (v + 1) as i8 }
}

/// A tape cell after a decrement, wrapping from the smallest value to the largest.
pub open spec fn wrap_dec(v: i8) -> i8 {
    if v == -128 { 127i8 } else { (v - 1) as i8 }
}

/// The byte that a tape cell is written out as.
pub open spec fn byte_of(v: i8) -> u8 {
    if v < 0 { (v + 256) as u8 } else { v as u8 }
}

/// The tape cell value that an input byte is stored as.
pub open spec fn cell_of(b: u8) -> i8 {
    if b > 127 { (b - 256) as i8 } else { b as i8 }
}

/// The operation in the cell at `pc`, if that cell is an operation.
pub open spec fn current_op(m: Machine) -> Option<Op> {
    if 0 <= m.pc < m.program.len() && m.program[m.pc] is Op {
        Some(m.program[m.pc]->Op_0)
    } else {
        None
    }
}

/// The jump target in the cell after `pc`.
pub open spec fn operand(m: Machine) -> int {
    m.program[m.pc + 1]->Target_0 as int
}

pub open spec fn cursor_valid(m: Machine) -> bool {
    0 <= m.loc < m.memory.len()
}

/// The operation at `pc` can run: it is not the halt, and what it touches is
/// in range.
pub open spec fn can_step(m: Machine) -> bool {
    &&& m.pc + 2 <= usize::MAX
    &&& match current_op(m) {
        Some(Op::Incr) | Some(Op::Decr) | Some(Op::Put) | Some(Op::Get) => cursor_valid(m),
        Some(Op::Right) => m.loc + 1 <= usize::MAX,
        Some(Op::Left) => m.loc >= 1,
        Some(Op::Open) | Some(Op::Close) => cursor_valid(m) && m.pc + 1 < m.program.len()
            && m.program[m.pc + 1] is Target,
        _ => false,
    }
}

pub open spec fn halted(m: Machine) -> bool {
    current_op(m) == Some(Op::Halt)
}

pub open spec fn with_cell(m: Machine, v: i8) -> Machine {
    Machine { memory: m.memory.update(m.loc, v), pc: m.pc + 1, ..m }
}

/// One step of the operation at `pc`; `input` is the byte a read takes, if any.
pub open spec fn next(m: Machine, input: Option<u8>) -> Machine {
    match current_op(m) {
        Some(Op::Incr) => with_cell(m, wrap_inc(m.memory[m.loc])),
        Some(Op::Decr) => with_cell(m, wrap_dec(m.memory[m.loc])),
        Some(Op::Right) => Machine { loc: m.loc + 1, pc: m.pc + 1, ..m },
        Some(Op::Left) => Machine { loc: m.loc - 1, pc: m.pc + 1, ..m },
        Some(Op::Open) => Machine { pc: if m.memory[m.loc] == 0 { operand(m) } else { m.pc + 2 }, ..m },
        Some(Op::Close) => Machine { pc: if m.memory[m.loc] != 0 { operand(m) } else { m.pc + 2 }, ..m },
        Some(Op::Put) => Machine { pc: m.pc + 1, ..m },
        Some(Op::Get) => match input {
            Some(b) => with_cell(m, cell_of(b)),
            None => Machine { pc: m.pc + 1, ..m },
        },
        _ => m,
    }
}

/// Increments the active tape cell, wrapping.
#[allow(non_snake_case)]
pub fn INCR(e: &mut Engine)
    requires
        cursor_valid(old(e)@),
        old(e).pc < usize::MAX,
    ensures
        final(e)@ == with_cell(old(e)@, wrap_inc(old(e).memory@[old(e).loc as int])),
{
    let v = e.memory[e.loc];
    let w: i8 = if v == 127 { -128 } else { v + 1 };
    e.memory.set(e.loc, w);
    e.pc = e.pc + 1;
}

/// Decrements the active tape cell, wrapping.
#[allow(non_snake_case)]
pub fn DECR(e: &mut Engine)
    requires
        cursor_valid(old(e)@),
        old(e).pc < usize::MAX,
    ensures
        final(e)@ == with_cell(old(e)@, wrap_dec(old(e).memory@[old(e).loc as int])),
{
    let v = e.memory[e.loc];
    let w: i8 = if v == -128 { 127 } else { v - 1 };
    e.memory.set(e.loc, w);
    e.pc = e.pc + 1;
}

/// Moves the cursor one cell right; the tape bound is not checked here.
#[allow(non_snake_case)]
pub fn RIGHT(e: &mut Engine)
    requires
        old(e).loc < usize::MAX,
        old(e).pc < usize::MAX,
    ensures
        final(e)@ == (Machine { loc: old(e)@.loc + 1, pc: old(e)@.pc + 1, ..old(e)@ }),
{
    e.loc = e.loc + 1;
    e.pc = e.pc + 1;
}

/// Moves the cursor one cell left.
#[allow(non_snake_case)]
pub fn LEFT(e: &mut Engine)
    requires
        old(e).loc >= 1,
        old(e).pc < usize::MAX,
    ensures
        final(e)@ == (Machine { loc: old(e)@.loc - 1, pc: old(e)@.pc + 1, ..old(e)@ }),
{
    e.loc = e.loc - 1;
    e.pc = e.pc + 1;
}

/// Jumps past the matching close when the active cell is zero; otherwise
/// steps over this cell and its operand.
#[allow(non_snake_case)]
pub fn OPEN(e: &mut Engine)
    requires
        cursor_valid(old(e)@),
        old(e).pc + 1 < old(e).program.len(),
        old(e).program@[old(e).pc + 1] is Target,
        old(e).pc + 2 <= usize::MAX,
    ensures
        final(e)@ == (Machine {
            pc: if old(e).memory@[old(e).loc as int] == 0 { operand(old(e)@) } else { old(e).pc + 2 },
            ..old(e)@
        }),
{
    if e.memory[e.loc] == 0 {
        if let Cell::Target(t) = e.program[e.pc + 1] {
            e.pc = t;
        }
    } else {
        e.pc = e.pc + 2;
    }
}

/// Jumps back past the matching open when the active cell is not zero;
/// otherwise steps over this cell and its operand.
#[allow(non_snake_case)]
pub fn CLOSE(e: &mut Engine)
    requires
        cursor_valid(old(e)@),
        old(e).pc + 1 < old(e).program.len(),
        old(e).program@[old(e).pc + 1] is Target,
        old(e).pc + 2 <= usize::MAX,
    ensures
        final(e)@ == (Machine {
            pc: if old(e).memory@[old(e).loc as int] != 0 { operand(old(e)@) } else { old(e).pc + 2 },
            ..old(e)@
        }),
{
    if e.memory[e.loc] != 0 {
        if let Cell::Target(t) = e.program[e.pc + 1] {
            e.pc = t;
        }
    } else {
        e.pc = e.pc + 2;
    }
}

/// Returns the byte to write out for the active cell and moves on.
#[allow(non_snake_case)]
pub fn PUT(e: &mut Engine) -> (r: u8)
    requires
        cursor_valid(old(e)@),
        old(e).pc < usize::MAX,
    ensures
        r == byte_of(old(e).memory@[old(e).loc as int]),
        final(e)@ == (Machine { pc: old(e)@.pc + 1, ..old(e)@ }),
{
    let v = e.memory[e.loc];
    e.pc = e.pc + 1;
    if v < 0 {
        (v as i16 + 256) as u8
    } else {
        v as u8
    }
}

/// Stores a byte that was read into the active cell and moves on; at the end
/// of input (`None`) the cell keeps its value.
#[allow(non_snake_case)]
pub fn GET(e: &mut Engine, input: Option<u8>)
    requires
        cursor_valid(old(e)@),
        old(e).pc < usize::MAX,
    ensures
        final(e)@ == (match input {
            Some(b) => with_cell(old(e)@, cell_of(b)),
            None => Machine { pc: old(e)@.pc + 1, ..old(e)@ },
        }),
{
    if let Some(b) = input {
        let v: i8 = if b > 127 { (b as i16 - 256) as i8 } else { b as i8 };
        e.memory.set(e.loc, v);
    }
    e.pc = e.pc + 1;
}

/// What the caller of [`step`] has to do next.
#[derive(Clone, Copy, Debug, PartialEq, Eq, Structural)]
pub enum Action {
    /// The operation ran; step again.
    Continue,
    /// The operation ran and this byte is to be written out.
    Write(u8),
    /// The operation at `pc` reads a byte: read it and hand it to [`GET`].
    Read,
    /// The halt was reached: flush the output and stop.
    Halt,
    /// The operation at `pc` cannot run (the cursor or `pc` is out of range).
    Fault,
}

/// Dispatches the cell at `pc`. The engine is left as it was on `Read`,
/// `Halt` and `Fault`.
pub fn step(e: &mut Engine) -> (r: Action)
    ensures
        halted(old(e)@) ==> r == Action::Halt,
        !halted(old(e)@) && !can_step(old(e)@) ==> r == Action::Fault,
        can_step(old(e)@) && current_op(old(e)@) == Some(Op::Get) ==> r == Action::Read,
        can_step(old(e)@) && current_op(old(e)@) == Some(Op::Put)
            ==> r == Action::Write(byte_of(old(e).memory@[old(e).loc as int])),
        can_step(old(e)@) && current_op(old(e)@) != Some(Op::Get) && current_op(old(e)@) != Some(Op::Put)
            ==> r == Action::Continue,
        r == Action::Continue || r is Write ==> final(e)@ == next(old(e)@, None),
        r == Action::Read || r == Action::Halt || r == Action::Fault ==> final(e)@ == old(e)@,
{
    if e.pc >= e.program.len() {
        return Action::Fault;
    }
    let op = match e.program[e.pc] {
        Cell::Op(op) => op,
        Cell::Target(_) => {
            return Action::Fault;
        },
    };
    if let Op::Halt = op {
        return Action::Halt;
    }
    if e.pc >= usize::MAX - 1 {
        return Action::Fault;
    }
    let on_tape = e.loc < e.memory.len();
    match op {
        Op::Incr => {
            if !on_tape {
                return Action::Fault;
            }
            INCR(e);
        },
        Op::Decr => {
            if !on_tape {
                return Action::Fault;
            }
            DECR(e);
        },
        Op::Right => {
            if e.loc == usize::MAX {
                return Action::Fault;
            }
            RIGHT(e);
        },
        Op::Left => {
            if e.loc == 0 {
                return Action::Fault;
            }
            LEFT(e);
        },
        Op::Open | Op::Close => {
            if !on_tape || e.pc + 1 >= e.program.len() {
                return Action::Fault;
            }
            if let Cell::Op(_) = e.program[e.pc + 1] {
                return Action::Fault;
            }
            if let Op::Open = op {
                OPEN(e);
            } else {
                CLOSE(e);
            }
        },
        Op::Put => {
            if !on_tape {
                return Action::Fault;
            }
            let b = PUT(e);
            return Action::Write(b);
        },
        Op::Get => {
            if !on_tape {
                return Action::Fault;
            }
            return Action::Read;
        },
        Op::Halt => {
            return Action::Halt;
        },
    }
    Action::Continue
}

/// The tape that every run starts from: `MEMORY_SIZE` zero cells.
pub open spec fn zero_tape() -> Seq<i8> {
    Seq::new(MEMORY_SIZE as nat, |_i: int| 0i8)
}

/// The state a run of program `p` starts in.
pub open spec fn fresh(p: Seq<Cell>) -> Machine {
    Machine { program: p, pc: 0, memory: zero_tape(), loc: 0 }
}

impl Engine {
    /// Whether the cell at `pc` is the halt.
    pub fn is_halted(&self) -> (r: bool)
        ensures
            r == halted(self@),
    {
        self.pc < self.program.len() && self.program[self.pc] == Cell::Op(Op::Halt)
    }

    /// Translates `src` and sets up a fresh engine for it: `pc` and the
    /// cursor at zero, the tape all zeros. Nothing runs when translation
    /// fails.
    pub fn new(src: &[u8]) -> (r: Result<Engine, TranslateError>)
        requires
            2 * src@.len() + 2 < usize::MAX,
        ensures
            r is Ok <==> balanced(src@),
            r is Err ==> r->Err_0 == (if open_stack(src@) is None {
                TranslateError::UnmatchedClose
            } else {
                TranslateError::UnmatchedOpen
            }),
            r is Ok ==> r->Ok_0@ == fresh(r->Ok_0@.program) && translation_of(src@, r->Ok_0@.program)
                && well_formed(r->Ok_0@.program),
    {
        let program = match translate(src) {
            Ok(p) => p,
            Err(err) => {
                return Err(err);
            },
        };
        let mut memory: Vec<i8> = Vec::new();
        while memory.len() < MEMORY_SIZE
            invariant
                memory@.len() <= MEMORY_SIZE,
                forall|i: int| 0 <= i < memory@.len() ==> memory@[i] == 0i8,
            decreases MEMORY_SIZE - memory@.len(),
        {
            memory.push(0);
        }
        proof {
            assert(memory@ =~= zero_tape());
        }
        Ok(Engine { program, pc: 0, memory, loc: 0 })
    }
}

/// A run in progress: the machine, the input still unread, the output so far.
pub struct Run {
    pub machine: Machine,
    pub input: Seq<u8>,
    pub output: Seq<u8>,
}

/// One step of a run: a write appends to the output, a read takes the next
/// input byte, or finds none and leaves the cell alone.
pub open spec fn advance(c: Run) -> Run {
    let m = c.machine;
    match current_op(m) {
        Some(Op::Put) => Run { machine: next(m, None), output: c.output.push(byte_of(m.memory[m.loc])), ..c },
        Some(Op::Get) => if c.input.len() > 0 {
            Run { machine: next(m, Some(c.input[0])), input: c.input.drop_first(), ..c }
        } else {
            Run { machine: next(m, None), ..c }
        },
        _ => Run { machine: next(m, None), ..c },
    }
}

/// At most `fuel` steps of `c`, stopping early where no operation can run
/// (at the halt, or on a fault).
pub open spec fn run(c: Run, fuel: nat) -> Run
    decreases fuel,
{
    if fuel == 0 || !can_step(c.machine) {
        c
    } else {
        run(advance(c), (fuel - 1) as nat)
    }
}

/// What a buffered run produced.
pub struct RunReport {
    /// Every byte written, in order.
    pub output: Vec<u8>,
    /// How many input bytes were read.
    pub consumed: usize,
    /// Whether the run ended at the halt.
    pub halted: bool,
}

/// Runs `e` for at most `fuel` steps, reading from `input` and collecting the
/// output, until the halt, a fault, or the fuel runs out.
pub fn run_buffered(e: &mut Engine, input: &[u8], fuel: u64) -> (r: RunReport)
    ensures
        ({
            let c = run(Run { machine: old(e)@, input: input@, output: Seq::empty() }, fuel as nat);
            &&& final(e)@ == c.machine
            &&& r.output@ == c.output
            &&& r.consumed <= input@.len()
            &&& input@.skip(r.consumed as int) == c.input
            &&& r.halted == halted(c.machine)
        }),
{
    let ghost goal = run(Run { machine: e@, input: input@, output: Seq::empty() }, fuel as nat);
    let mut output: Vec<u8> = Vec::new();
    let mut consumed: usize = 0;
    let mut left: u64 = fuel;
    proof {
        assert(input@.skip(0) =~= input@);
    }
    while left > 0
        invariant
            consumed <= input@.len(),
            goal == run(Run { machine: e@, input: input@.skip(consumed as int), output: output@ }, left as nat),
        ensures
            consumed <= input@.len(),
            goal == (Run { machine: e@, input: input@.skip(consumed as int), output: output@ }),
        decreases left,
    {
        let ghost cur = Run { machine: e@, input: input@.skip(consumed as int), output: output@ };
        match step(e) {
            Action::Continue => {},
            Action::Write(b) => {
                output.push(b);
            },
            Action::Read => {
                if consumed < input.len() {
                    GET(e, Some(input[consumed]));
                    consumed = consumed + 1;
                    proof {
                        assert(input@.skip(consumed as int) =~= input@.skip(consumed - 1).drop_first());
                    }
                } else {
                    GET(e, None);
                }
            },
            Action::Halt | Action::Fault => {
                proof {
                    assert(!can_step(cur.machine));
                    assert(run(cur, left as nat) == cur);
                }
                break;
            },
        }
        proof {
            assert(advance(cur) == Run { machine: e@, input: input@.skip(consumed as int), output: output@ });
        }
        left = left - 1;
    }
    let halted = e.is_halted();
    RunReport { output, consumed, halted }
}

} // verus!


