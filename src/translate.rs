//! Translation of source text into a threaded instruction array.
use vstd::prelude::*;
use crate::program::{Cell, Op, op_of, operation_for, width_of, code_len, cell_at, branch_at, target_at, well_formed, paired_at};

verus! {

/// Why a source text could not be translated.
#[derive(Clone, Copy, Debug, PartialEq, Eq, Structural)]
pub enum TranslateError {
    /// A `]` with no open `[` before it.
    UnmatchedClose,
    /// A `[` that is never closed.
    UnmatchedOpen,
}

/// Positions of the loop opens still waiting for their close after reading
/// `s`, innermost last; `None` once a close found no open to pair with.
pub open spec fn open_stack(s: Seq<u8>) -> Option<Seq<int>>
    decreases s.len(),
{
    if s.len() == 0 {
        Some(Seq::empty())
    } else {
        match open_stack(s.drop_last()) {
            None => None,
            Some(st) => if s.last() == 91 {
                Some(st.push(s.len() - 1))
            } else if s.last() == 93 {
                if st.len() == 0 {
                    None
                } else {
                    Some(st.drop_last())
                }
            } else {
                Some(st)
            },
        }
    }
}

/// Position `k` of `s` holds a loop close.
pub open spec fn close_at(s: Seq<u8>, k: int) -> bool {
    0 <= k < s.len() && s[k] == 93
}

/// Every bracket of `s` has its partner.
pub open spec fn balanced(s: Seq<u8>) -> bool {
    open_stack(s) == Some(Seq::<int>::empty())
}

/// Position of the open that the close at position `k` pairs with.
pub open spec fn partner(s: Seq<u8>, k: int) -> int {
    open_stack(s.take(k))->Some_0.last()
}

/// The close at `k` and its open jump to just past each other's operand cell.
pub open spec fn pair_resolved(s: Seq<u8>, p: Seq<Cell>, k: int) -> bool {
    let j = partner(s, k);
    &&& 0 <= j < k
    &&& s[j] == 91
    &&& p[cell_at(s, j) + 1] == Cell::Target((cell_at(s, k) + 2) as usize)
    &&& p[cell_at(s, k) + 1] == Cell::Target((cell_at(s, j) + 2) as usize)
}

/// `p` is the instruction array of `s`: each operation byte in its cell, each
/// loop pair resolved, a halt after the last instruction.
pub open spec fn translation_of(s: Seq<u8>, p: Seq<Cell>) -> bool {
    &&& p.len() == code_len(s) + 1
    &&& forall|k: int| 0 <= k < s.len() && (#[trigger] op_of(s[k])) is Some
            ==> p[cell_at(s, k)] == Cell::Op(op_of(s[k])->Some_0)
    &&& forall|k: int| 0 <= k < s.len() && #[trigger] close_at(s, k) ==> pair_resolved(s, p, k)
    &&& p[code_len(s) as int] == Cell::Op(Op::Halt)
}

pub(crate) proof fn lemma_take_step(s: Seq<u8>, i: int)
    requires
        0 <= i < s.len(),
    ensures
        s.take(i + 1).drop_last() == s.take(i),
        s.take(i + 1).last() == s[i],
        code_len(s.take(i + 1)) == code_len(s.take(i)) + width_of(s[i]),
        open_stack(s.take(i + 1)) == (match open_stack(s.take(i)) {
            None => None,
            Some(st) => if s[i] == 91 {
                Some(st.push(i))
            } else if s[i] == 93 {
                if st.len() == 0 { None } else { Some(st.drop_last()) }
            } else {
                Some(st)
            },
        }),
{
    assert(s.take(i + 1).drop_last() =~= s.take(i));
}

proof fn lemma_code_len_mono(s: Seq<u8>, a: int, b: int)
    requires
        0 <= a <= b <= s.len(),
    ensures
        code_len(s.take(a)) <= code_len(s.take(b)),
    decreases b - a,
{
    if a < b {
        lemma_take_step(s, b - 1);
        lemma_code_len_mono(s, a, b - 1);
    }
}

/// Every byte before position `i` is placed, whole, below the cells of `s.take(i)`.
pub(crate) proof fn lemma_cells_below(s: Seq<u8>, i: int)
    requires
        0 <= i <= s.len(),
    ensures
        forall|k: int| 0 <= k < i ==> #[trigger] cell_at(s, k) + width_of(s[k]) <= code_len(s.take(i)),
{
    assert forall|k: int| 0 <= k < i implies #[trigger] cell_at(s, k) + width_of(s[k]) <= code_len(s.take(i)) by {
        lemma_take_step(s, k);
        lemma_code_len_mono(s, k + 1, i);
    }
}

proof fn lemma_code_len_bound(s: Seq<u8>)
    ensures
        code_len(s) <= 2 * s.len(),
    decreases s.len(),
{
    if s.len() > 0 {
        lemma_code_len_bound(s.drop_last());
    }
}

pub(crate) proof fn lemma_stuck_stays(s: Seq<u8>, a: int, b: int)
    requires
        0 <= a <= b <= s.len(),
        open_stack(s.take(a)) is None,
    ensures
        open_stack(s.take(b)) is None,
    decreases b - a,
{
    if a < b {
        lemma_stuck_stays(s, a, b - 1);
        lemma_take_step(s, b - 1);
    }
}

/// Entry `d` of the pending stack is the operand cell of the open at
/// position `st[d]`, still holding no target.
pub open spec fn pending_entry(s: Seq<u8>, i: int, st: Seq<int>, p: Seq<Cell>, pend: Seq<usize>, d: int) -> bool {
    &&& 0 <= st[d] < i
    &&& s[st[d]] == 91
    &&& pend[d] == cell_at(s, st[d]) + 1
    &&& p[pend[d] as int] == Cell::Target(0)
}

/// State of translation after the first `i` bytes of `s`: `p` holds their
/// cells, `pend` the operand cells of the opens not yet closed.
pub open spec fn translating(s: Seq<u8>, i: int, p: Seq<Cell>, pend: Seq<usize>) -> bool {
    let st = open_stack(s.take(i))->Some_0;
    &&& 0 <= i <= s.len()
    &&& p.len() == code_len(s.take(i))
    &&& p.len() <= 2 * i
    &&& open_stack(s.take(i)) is Some
    &&& pend.len() == st.len()
    &&& forall|d: int| 0 <= d < pend.len() ==> #[trigger] pending_entry(s, i, st, p, pend, d)
    &&& forall|d: int, e: int| 0 <= d < e < pend.len() ==> pend[d] < pend[e]
    &&& forall|k: int| 0 <= k < i && (#[trigger] op_of(s[k])) is Some
        ==> p[cell_at(s, k)] == Cell::Op(op_of(s[k])->Some_0)
    &&& forall|k: int| 0 <= k < i && #[trigger] close_at(s, k) ==> pair_resolved(s, p, k)
    &&& forall|c: int| #[trigger] branch_at(p, c) ==> {
        &&& c + 1 < p.len()
        &&& p[c + 1] is Target
        &&& paired_at(p, c) || pend.contains((c + 1) as usize)
    }
    &&& forall|c: int| #[trigger] target_at(p, c) ==> branch_at(p, c - 1)
}

proof fn lemma_inert(s: Seq<u8>, i: int, p: Seq<Cell>, pend: Seq<usize>)
    requires
        translating(s, i, p, pend),
        i < s.len(),
        op_of(s[i]) is None,
    ensures
        translating(s, i + 1, p, pend),
{
    lemma_take_step(s, i);
    let st = open_stack(s.take(i))->Some_0;
    assert forall|d: int| 0 <= d < pend.len() implies #[trigger] pending_entry(s, i + 1, st, p, pend, d) by {
        assert(pending_entry(s, i, st, p, pend, d));
    }
}

proof fn lemma_plain(s: Seq<u8>, i: int, p: Seq<Cell>, pend: Seq<usize>, op: Op)
    requires
        translating(s, i, p, pend),
        i < s.len(),
        op_of(s[i]) == Some(op),
        op != Op::Open,
        op != Op::Close,
    ensures
        translating(s, i + 1, p.push(Cell::Op(op)), pend),
{
    let q = p.push(Cell::Op(op));
    lemma_take_step(s, i);
    lemma_cells_below(s, i);
    let st = open_stack(s.take(i))->Some_0;
    assert forall|d: int| 0 <= d < pend.len() implies #[trigger] pending_entry(s, i + 1, st, q, pend, d) by {
        assert(pending_entry(s, i, st, p, pend, d));
        assert(width_of(s[st[d]]) == 2);
        assert(cell_at(s, st[d]) + width_of(s[st[d]]) <= p.len());
    }
    assert forall|k: int| 0 <= k < i + 1 && (#[trigger] op_of(s[k])) is Some
        implies q[cell_at(s, k)] == Cell::Op(op_of(s[k])->Some_0) by {
        if k < i {
            assert(cell_at(s, k) + width_of(s[k]) <= p.len());
        }
    }
    assert forall|k: int| 0 <= k < i + 1 && #[trigger] close_at(s, k) implies pair_resolved(s, q, k) by {
        let j = partner(s, k);
        assert(pair_resolved(s, p, k));
        assert(cell_at(s, k) + width_of(s[k]) <= p.len());
        assert(cell_at(s, j) + width_of(s[j]) <= p.len());
    }
    assert forall|c: int| #[trigger] branch_at(q, c) implies {
        &&& c + 1 < q.len()
        &&& q[c + 1] is Target
        &&& paired_at(q, c) || pend.contains((c + 1) as usize)
    } by {
        assert(c < p.len());
        assert(p[c] == q[c]);
        assert(branch_at(p, c));
        if paired_at(p, c) {
            let t = p[c + 1]->Target_0 as int;
            assert(q[t - 2] == p[t - 2] && q[t - 1] == p[t - 1]);
        }
    }
    assert forall|c: int| #[trigger] target_at(q, c) implies branch_at(q, c - 1) by {
        assert(c < p.len());
        assert(p[c] == q[c]);
        assert(target_at(p, c));
    }
}

proof fn lemma_open(s: Seq<u8>, i: int, p: Seq<Cell>, pend: Seq<usize>)
    requires
        translating(s, i, p, pend),
        i < s.len(),
        s[i] == 91,
        p.len() + 1 < usize::MAX,
    ensures
        translating(s, i + 1, p.push(Cell::Op(Op::Open)).push(Cell::Target(0)),
            pend.push((p.len() + 1) as usize)),
{
    let q = p.push(Cell::Op(Op::Open)).push(Cell::Target(0));
    let pend2 = pend.push((p.len() + 1) as usize);
    lemma_take_step(s, i);
    lemma_cells_below(s, i);
    let st = open_stack(s.take(i))->Some_0;
    let st2 = st.push(i);
    assert(open_stack(s.take(i + 1)) == Some(st2));
    assert forall|d: int| 0 <= d < pend2.len() implies #[trigger] pending_entry(s, i + 1, st2, q, pend2, d) by {
        if d < pend.len() {
            assert(pending_entry(s, i, st, p, pend, d));
            assert(pend2[d] == pend[d]);
            assert(st2[d] == st[d]);
            assert(width_of(s[st[d]]) == 2);
            assert(cell_at(s, st[d]) + width_of(s[st[d]]) <= p.len());
        }
    }
    assert forall|d: int, e: int| 0 <= d < e < pend2.len() implies pend2[d] < pend2[e] by {
        if e == pend.len() {
            assert(pending_entry(s, i, st, p, pend, d));
            assert(width_of(s[st[d]]) == 2);
            assert(cell_at(s, st[d]) + width_of(s[st[d]]) <= p.len());
        }
    }
    assert forall|k: int| 0 <= k < i + 1 && (#[trigger] op_of(s[k])) is Some
        implies q[cell_at(s, k)] == Cell::Op(op_of(s[k])->Some_0) by {
        if k < i {
            assert(cell_at(s, k) + width_of(s[k]) <= p.len());
        }
    }
    assert forall|k: int| 0 <= k < i + 1 && #[trigger] close_at(s, k) implies pair_resolved(s, q, k) by {
        let j = partner(s, k);
        assert(pair_resolved(s, p, k));
        assert(cell_at(s, k) + width_of(s[k]) <= p.len());
        assert(cell_at(s, j) + width_of(s[j]) <= p.len());
    }
    assert forall|c: int| #[trigger] branch_at(q, c) implies {
        &&& c + 1 < q.len()
        &&& q[c + 1] is Target
        &&& paired_at(q, c) || pend2.contains((c + 1) as usize)
    } by {
        if c < p.len() {
            assert(p[c] == q[c]);
            assert(branch_at(p, c));
            if paired_at(p, c) {
                let t = p[c + 1]->Target_0 as int;
                assert(q[t - 2] == p[t - 2] && q[t - 1] == p[t - 1]);
            } else {
                let x = choose|x: int| 0 <= x < pend.len() && pend[x] == (c + 1) as usize;
                assert(pend2[x] == pend[x]);
            }
        } else {
            assert(pend2[pend.len() as int] == (c + 1) as usize);
        }
    }    assert forall|c: int| #[trigger] target_at(q, c) implies branch_at(q, c - 1) by {
        if c < p.len() {
            assert(p[c] == q[c]);
            assert(target_at(p, c));
        }
    }
}

proof fn lemma_close(s: Seq<u8>, i: int, p: Seq<Cell>, pend: Seq<usize>)
    requires
        translating(s, i, p, pend),
        i < s.len(),
        s[i] == 93,
        pend.len() > 0,
        p.len() + 2 < usize::MAX,
    ensures
        translating(s, i + 1,
            p.push(Cell::Op(Op::Close)).push(Cell::Target((pend.last() + 1) as usize))
                .update(pend.last() as int, Cell::Target((p.len() + 2) as usize)),
            pend.drop_last()),
        pend.last() < p.len(),
{
    let start = pend.last() as int;
    let q = p.push(Cell::Op(Op::Close)).push(Cell::Target((start + 1) as usize))
        .update(start, Cell::Target((p.len() + 2) as usize));
    let pend2 = pend.drop_last();
    lemma_take_step(s, i);
    lemma_cells_below(s, i);
    let st = open_stack(s.take(i))->Some_0;
    let st2 = st.drop_last();
    let j = st.last();
    assert(open_stack(s.take(i + 1)) == Some(st2));
    assert(partner(s, i) == j);
    assert(pending_entry(s, i, st, p, pend, pend.len() - 1));
    assert(pend[pend.len() - 1] == start);
    assert(start == cell_at(s, j) + 1);
    assert(width_of(s[j]) == 2);
    assert(start + 1 <= p.len());
    assert(op_of(s[j]) == Some(Op::Open));
    assert(p[start - 1] == Cell::Op(Op::Open));
    assert(p[start] == Cell::Target(0));
    assert forall|d: int| 0 <= d < pend2.len() implies #[trigger] pending_entry(s, i + 1, st2, q, pend2, d) by {
        assert(pending_entry(s, i, st, p, pend, d));
        assert(pend2[d] == pend[d]);
        assert(st2[d] == st[d]);
        assert(pend[d] < pend[pend.len() - 1]);
        assert(width_of(s[st[d]]) == 2);
        assert(cell_at(s, st[d]) + width_of(s[st[d]]) <= p.len());
    }
    assert forall|k: int| 0 <= k < i + 1 && (#[trigger] op_of(s[k])) is Some
        implies q[cell_at(s, k)] == Cell::Op(op_of(s[k])->Some_0) by {
        if k < i {
            assert(cell_at(s, k) + width_of(s[k]) <= p.len());
            assert(cell_at(s, k) != start);
        }
    }
    assert forall|k: int| 0 <= k < i + 1 && #[trigger] close_at(s, k) implies pair_resolved(s, q, k) by {
        if k < i {
            let j2 = partner(s, k);
            assert(pair_resolved(s, p, k));
            assert(cell_at(s, k) + width_of(s[k]) <= p.len());
            assert(cell_at(s, j2) + width_of(s[j2]) <= p.len());
            assert(cell_at(s, j2) + 1 != start);
            assert(cell_at(s, k) + 1 != start);
        }
    }
    assert forall|c: int| #[trigger] branch_at(q, c) implies {
        &&& c + 1 < q.len()
        &&& q[c + 1] is Target
        &&& paired_at(q, c) || pend2.contains((c + 1) as usize)
    } by {
        if c == p.len() {
            assert(q[start - 1] == Cell::Op(Op::Open));
            assert(paired_at(q, c));
        } else if c == start - 1 {
            assert(q[p.len() as int] == Cell::Op(Op::Close));
            assert(paired_at(q, c));
        } else {
            assert(c < p.len());
            assert(c != start);
            assert(p[c] == q[c]);
            assert(branch_at(p, c));
            assert(c + 1 != start);
            if paired_at(p, c) {
                let t = p[c + 1]->Target_0 as int;
                assert(t - 1 != start);
                assert(t - 2 != start);
                assert(q[t - 2] == p[t - 2] && q[t - 1] == p[t - 1]);
            } else {
                let x = choose|x: int| 0 <= x < pend.len() && pend[x] == (c + 1) as usize;
                assert(x != pend.len() - 1);
                assert(pend2[x] == pend[x]);
            }
        }
    }
    assert forall|c: int| #[trigger] target_at(q, c) implies branch_at(q, c - 1) by {
        if c < p.len() && c != start {
            assert(p[c] == q[c]);
            assert(target_at(p, c));
            assert(c - 1 != start);
        }
    }
}

proof fn lemma_finish(s: Seq<u8>, p: Seq<Cell>, pend: Seq<usize>)
    requires
        translating(s, s.len() as int, p, pend),
        pend.len() == 0,
        2 * s.len() + 2 < usize::MAX,
    ensures
        translation_of(s, p.push(Cell::Op(Op::Halt))),
        well_formed(p.push(Cell::Op(Op::Halt))),
{
    let q = p.push(Cell::Op(Op::Halt));
    assert(s.take(s.len() as int) =~= s);
    lemma_cells_below(s, s.len() as int);
    assert forall|k: int| 0 <= k < s.len() && (#[trigger] op_of(s[k])) is Some
        implies q[cell_at(s, k)] == Cell::Op(op_of(s[k])->Some_0) by {
        assert(cell_at(s, k) + width_of(s[k]) <= p.len());
    }
    assert forall|k: int| 0 <= k < s.len() && #[trigger] close_at(s, k) implies pair_resolved(s, q, k) by {
        let j = partner(s, k);
        assert(pair_resolved(s, p, k));
        assert(cell_at(s, k) + width_of(s[k]) <= p.len());
        assert(cell_at(s, j) + width_of(s[j]) <= p.len());
    }
    assert forall|c: int| #[trigger] branch_at(q, c) implies paired_at(q, c) by {
        assert(p[c] == q[c]);
        assert(branch_at(p, c));
        assert(!pend.contains((c + 1) as usize));
        let t = p[c + 1]->Target_0 as int;
        assert(q[t - 2] == p[t - 2] && q[t - 1] == p[t - 1]);
    }
    assert forall|c: int| #[trigger] target_at(q, c) implies branch_at(q, c - 1) by {
        assert(p[c] == q[c]);
        assert(target_at(p, c));
    }
}

/// Translates source bytes into an instruction array. Bytes other than the
/// eight operation characters are ignored. Each `[` and `]` takes two cells,
/// its operation and its jump target; a halt follows the last instruction.
/// An unclosed `[` is refused here rather than left as a dangling jump.
pub fn translate(src: &[u8]) -> (r: Result<Vec<Cell>, TranslateError>)
    requires
        2 * src@.len() + 2 < usize::MAX,
    ensures
        r == Err::<Vec<Cell>, TranslateError>(TranslateError::UnmatchedClose) <==> open_stack(src@) is None,
        r == Err::<Vec<Cell>, TranslateError>(TranslateError::UnmatchedOpen) <==> (open_stack(src@) is Some
            && open_stack(src@)->Some_0.len() > 0),
        r is Ok <==> balanced(src@),
        r is Ok ==> translation_of(src@, r->Ok_0@) && well_formed(r->Ok_0@),
{
    let ghost s = src@;
    let mut program: Vec<Cell> = Vec::new();
    let mut pending: Vec<usize> = Vec::new();
    let mut i: usize = 0;
    proof {
        assert(s.take(0) =~= Seq::<u8>::empty());
    }
    while i < src.len()
        invariant
            s == src@,
            2 * s.len() + 2 < usize::MAX,
            translating(s, i as int, program@, pending@),
        decreases s.len() - i,
    {
        let b = src[i];
        let ghost p0 = program@;
        let ghost pend0 = pending@;
        match operation_for(b) {
            None => {
                proof {
                    lemma_inert(s, i as int, p0, pend0);
                }
            },
            Some(Op::Open) => {
                program.push(Cell::Op(Op::Open));
                pending.push(program.len());
                program.push(Cell::Target(0));
                proof {
                    lemma_open(s, i as int, p0, pend0);
                }
            },
            Some(Op::Close) => {
                match pending.pop() {
                    None => {
                        proof {
                            lemma_take_step(s, i as int);
                            lemma_stuck_stays(s, i + 1, s.len() as int);
                            assert(s.take(s.len() as int) =~= s);
                        }
                        return Err(TranslateError::UnmatchedClose);
                    },
                    Some(start) => {
                        proof {
                            assert(pend0[pend0.len() - 1] == start);
                            lemma_close(s, i as int, p0, pend0);
                        }
                        program.push(Cell::Op(Op::Close));
                        program.push(Cell::Target(start + 1));
                        program.set(start, Cell::Target(program.len()));
                        proof {
                            assert(pending@ == pend0.drop_last());
                        }
                    },
                }
            },
            Some(op) => {
                program.push(Cell::Op(op));
                proof {
                    lemma_plain(s, i as int, p0, pend0, op);
                }
            },
        }
        i = i + 1;
    }
    proof {
        assert(s.take(s.len() as int) =~= s);
    }
    if pending.len() > 0 {
        return Err(TranslateError::UnmatchedOpen);
    }
    proof {
        assert(open_stack(s)->Some_0 =~= Seq::<int>::empty());
        lemma_finish(s, program@, pending@);
    }
    program.push(Cell::Op(Op::Halt));
    Ok(program)
}

} // verus!
