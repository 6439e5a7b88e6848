//! Operations, instruction cells, and the table from source bytes to operations.
use vstd::prelude::*;

verus! {

/// One of the operations an instruction cell can invoke.
#[derive(Clone, Copy, Debug, PartialEq, Eq, Structural)]
pub enum Op {
    Incr,
    Decr,
    Right,
    Left,
    Open,
    Close,
    Put,
    Get,
    Halt,
}

/// A slot of the translated program: an operation to invoke, or the jump
/// target read by the branch operation in the slot before it.
#[derive(Clone, Copy, Debug, PartialEq, Eq, Structural)]
pub enum Cell {
    Op(Op),
    Target(usize),
}

/// The operation table: which source bytes stand for which operation
/// (`+` 43, `-` 45, `>` 62, `<` 60, `[` 91, `]` 93, `.` 46, `,` 44).
pub open spec fn op_of(b: u8) -> Option<Op> {
    if b == 43 {
        Some(Op::Incr)
    } else if b == 45 {
        Some(Op::Decr)
    } else if b == 62 {
        Some(Op::Right)
    } else if b == 60 {
        Some(Op::Left)
    } else if b == 91 {
        Some(Op::Open)
    } else if b == 93 {
        Some(Op::Close)
    } else if b == 46 {
        Some(Op::Put)
    } else if b == 44 {
        Some(Op::Get)
    } else {
        None
    }
}

/// Looks a source byte up in the operation table; every other byte is inert.
pub fn operation_for(b: u8) -> (r: Option<Op>)
    ensures
        r == op_of(b),
{
    match b {
        43 => Some(Op::Incr),
        45 => Some(Op::Decr),
        62 => Some(Op::Right),
        60 => Some(Op::Left),
        91 => Some(Op::Open),
        93 => Some(Op::Close),
        46 => Some(Op::Put),
        44 => Some(Op::Get),
        _ => None,
    }
}

/// Number of cells that one source byte occupies once translated: a branch
/// takes its operation cell and its operand cell.
pub open spec fn width_of(b: u8) -> nat {
    match op_of(b) {
        Some(Op::Open) | Some(Op::Close) => 2,
        Some(_) => 1,
        None => 0,
    }
}

/// Number of cells the source `s` translates to, not counting the final halt.
pub open spec fn code_len(s: Seq<u8>) -> nat
    decreases s.len(),
{
    if s.len() == 0 {
        0
    } else {
        code_len(s.drop_last()) + width_of(s.last())
    }
}

/// Index of the cell at which the source byte at position `k` is placed.
pub open spec fn cell_at(s: Seq<u8>, k: int) -> int {
    code_len(s.take(k)) as int
}

pub open spec fn is_branch(c: Cell) -> bool {
    c == Cell::Op(Op::Open) || c == Cell::Op(Op::Close)
}

/// Shape of a translated program: it ends in a halt, every branch is followed
/// by its target cell, the target of each branch lands just past the operand
/// cell of a branch of the other direction whose own target lands just past
/// this one, and target cells stand only behind branches.
pub open spec fn well_formed(p: Seq<Cell>) -> bool {
    &&& p.len() >= 1
    &&& p.last() == Cell::Op(Op::Halt)
    &&& p.len() < usize::MAX
    &&& forall|i: int| #[trigger] branch_at(p, i) ==> paired_at(p, i)
    &&& forall|i: int| #[trigger] target_at(p, i) ==> branch_at(p, i - 1)
}

/// Cell `i` of `p` is a loop open or close.
pub open spec fn branch_at(p: Seq<Cell>, i: int) -> bool {
    0 <= i < p.len() && is_branch(p[i])
}

/// Cell `i` of `p` holds a jump target.
pub open spec fn target_at(p: Seq<Cell>, i: int) -> bool {
    0 <= i < p.len() && p[i] is Target
}

/// The branch at `i` has a target `t` such that the cell pair just before `t`
/// is a branch of the other direction that jumps back to `i + 2`.
pub open spec fn paired_at(p: Seq<Cell>, i: int) -> bool {
    &&& i + 1 < p.len()
    &&& p[i + 1] is Target
    &&& {
        let t = p[i + 1]->Target_0 as int;
        &&& 2 <= t <= p.len()
        &&& p[t - 2] == (if p[i] == Cell::Op(Op::Open) { Cell::Op(Op::Close) } else { Cell::Op(Op::Open) })
        &&& p[t - 1] == Cell::Target((i + 2) as usize)
    }
}

} // verus!
