//! Depth-first backtracking search that fills a board, always branching on
//! the empty cell with the fewest candidates.
use vstd::prelude::*;
use vstd::set_lib::{lemma_int_range, lemma_len_subset, set_int_range};
use crate::board::{ascending_of, lemma_ascending_bound, lemma_same_grid, placed_at, HexPuzzle, Possible};

verus! {

/// Cell `(r, c)` of `s` holds the same digit as in `p` wherever `p` holds one.
pub open spec fn extends(s: HexPuzzle, p: HexPuzzle) -> bool {
    forall|r: int, c: int|
        0 <= r < 16 && 0 <= c < 16 && #[trigger] p.filled(r, c) ==> s.cell(r, c) == p.cell(r, c)
}

/// `s` is a completed grid that keeps every digit of `p`.
pub open spec fn solves(s: HexPuzzle, p: HexPuzzle) -> bool {
    &&& s.digits_ok()
    &&& s.is_full()
    &&& s.no_conflicts()
    &&& extends(s, p)
}

/// Row-major indices of the cells of `b` that hold a digit.
pub open spec fn filled_cells(b: HexPuzzle) -> Set<int> {
    Set::new(|k: int| 0 <= k < 256 && b.filled(k / 16, k % 16))
}

/// `18` to the power `e`.
pub open spec fn scale(e: nat) -> int
    decreases e,
{
    if e == 0 {
        1
    } else {
        18 * scale((e - 1) as nat)
    }
}

proof fn lemma_scale_positive(e: nat)
    ensures
        scale(e) >= 1,
    decreases e,
{
    if e > 0 {
        lemma_scale_positive((e - 1) as nat);
    }
}

/// Weight of a decision point `n` levels deep.
pub open spec fn level(n: int) -> int {
    scale((300 - n) as nat)
}

/// A state of the search.
pub enum State {
    /// No candidate of the current decision point is left.
    Backtrack,
    /// Trying the remaining candidates of one empty cell.
    Iterate((HexPuzzle, Possible)),
    /// Choosing the next cell to fill.
    Search(HexPuzzle),
}

/// A decision point: `b` is a board reached from the initial one, `p` an
/// empty cell of it with some of its candidates still to try.
pub open spec fn frame_ok(b: HexPuzzle, p: Possible, init: HexPuzzle) -> bool {
    &&& b.wf()
    &&& extends(b, init)
    &&& p.row < 16
    &&& p.col < 16
    &&& !b.filled(p.row as int, p.col as int)
    &&& p.vals@.len() <= 16
    &&& forall|i: int|
        0 <= i < p.vals@.len() ==> b.candidates(p.row as int, p.col as int).contains(
            #[trigger] p.vals@[i],
        )
}

/// Solution `s` is still reachable from decision point `(b, p)`.
pub open spec fn covers(b: HexPuzzle, p: Possible, s: HexPuzzle) -> bool {
    extends(s, b) && p.vals@.contains(s.cell(p.row as int, p.col as int) as usize)
}

pub open spec fn state_covers(st: State, s: HexPuzzle) -> bool {
    match st {
        State::Backtrack => false,
        State::Iterate((b, p)) => covers(b, p, s),
        State::Search(b) => extends(s, b),
    }
}

pub open spec fn state_ok(st: State, depth: int, init: HexPuzzle) -> bool {
    match st {
        State::Backtrack => true,
        State::Iterate((b, p)) => frame_ok(b, p, init) && depth <= filled_cells(b).len(),
        State::Search(b) => b.wf() && extends(b, init) && depth <= filled_cells(b).len(),
    }
}

/// The part of the termination measure that the pending decision points hold.
pub open spec fn stack_weight(s: Seq<(HexPuzzle, Possible)>) -> int
    decreases s.len(),
{
    if s.len() == 0 {
        0
    } else {
        stack_weight(s.drop_last()) + s.last().1.vals@.len() * level(s.len() - 1)
    }
}

/// The part of the termination measure that the current state holds.
pub open spec fn state_weight(st: State, n: int) -> int {
    match st {
        State::Backtrack => 2 * n + 1,
        State::Iterate((_, p)) => p.vals@.len() * level(n) + 2 * n + 2,
        State::Search(_) => 17 * level(n) + 2 * n + 2,
    }
}

proof fn lemma_stack_weight_nonneg(s: Seq<(HexPuzzle, Possible)>)
    ensures
        stack_weight(s) >= 0,
    decreases s.len(),
{
    if s.len() > 0 {
        lemma_stack_weight_nonneg(s.drop_last());
        lemma_scale_positive((300 - (s.len() - 1)) as nat);
        let k = s.last().1.vals@.len();
        let l = level(s.len() - 1);
        assert(k * l >= 0) by (nonlinear_arith)
            requires
                l >= 1,
        ;
    }
}

/// The cells that hold a digit are finitely many, at most 256, and fewer when
/// one cell is empty.
proof fn lemma_filled_bound(b: HexPuzzle, r: int, c: int)
    requires
        0 <= r < 16,
        0 <= c < 16,
        !b.filled(r, c),
    ensures
        filled_cells(b).finite(),
        filled_cells(b).len() < 256,
{
    lemma_int_range(0, 256);
    let k = r * 16 + c;
    assert(k / 16 == r && k % 16 == c);
    assert(filled_cells(b).subset_of(set_int_range(0, 256).remove(k)));
    lemma_len_subset(filled_cells(b), set_int_range(0, 256).remove(k));
}

/// Placing a digit in an empty cell adds one filled cell.
proof fn lemma_filled_grows(pre: HexPuzzle, post: HexPuzzle, r: int, c: int, v: u8)
    requires
        0 <= r < 16,
        0 <= c < 16,
        !pre.filled(r, c),
        v < 16,
        placed_at(pre, post, r, c, v),
    ensures
        filled_cells(post).len() == filled_cells(pre).len() + 1,
{
    lemma_filled_bound(pre, r, c);
    let k = r * 16 + c;
    assert(k / 16 == r && k % 16 == c);
    assert forall|j: int| 0 <= j < 256 implies #[trigger] post.filled(j / 16, j % 16) == (pre.filled(j / 16, j % 16) || j == k) by {
        if j / 16 == r && j % 16 == c {
            assert(j == k);
        }
    }
    assert(filled_cells(post) =~= filled_cells(pre).insert(k));
}

/// In a completed grid that extends a board, every cell left empty on the
/// board holds one of its candidates there.
proof fn lemma_solution_is_candidate(s: HexPuzzle, b: HexPuzzle, r: int, c: int)
    requires
        b.wf(),
        s.digits_ok(),
        s.is_full(),
        s.no_conflicts(),
        extends(s, b),
        0 <= r < 16,
        0 <= c < 16,
        !b.filled(r, c),
    ensures
        b.candidates(r, c).contains(s.cell(r, c) as usize),
{
    let w = s.cell(r, c) as usize;
    assert(s.filled(r, c));
    if b.row_vals(r).contains(w) {
        let c2 = choose|c2: int| 0 <= c2 < 16 && b.filled(r, c2) && b.cell(r, c2) as usize == w;
        assert(s.cell(r, c2) == b.cell(r, c2));
        assert(s.cell(r, c) != s.cell(r, c2));
    }
    if b.col_vals(c).contains(w) {
        let r2 = choose|r2: int| 0 <= r2 < 16 && b.filled(r2, c) && b.cell(r2, c) as usize == w;
        assert(s.cell(r2, c) == b.cell(r2, c));
        assert(s.cell(r, c) != s.cell(r2, c));
    }
    if b.box_vals(crate::board::box_of(r, c)).contains(w) {
        let (r2, c2) = choose|r2: int, c2: int|
            0 <= r2 < 16 && 0 <= c2 < 16 && crate::board::box_of(r2, c2) == crate::board::box_of(r, c)
                && b.filled(r2, c2) && b.cell(r2, c2) as usize == w;
        assert(s.cell(r2, c2) == b.cell(r2, c2));
        assert(s.cell(r, c) != s.cell(r2, c2));
    }
}

/// Searches for a completion of `puzzle`: `Some` with a completed grid that
/// keeps every digit of `puzzle`, or `None` when there is no such grid.
pub fn solve(puzzle: &HexPuzzle) -> (r: Option<HexPuzzle>)
    requires
        puzzle.wf(),
    ensures
        r matches Some(s) ==> s.wf() && solves(s, *puzzle),
        r is None ==> forall|s: HexPuzzle| !solves(s, *puzzle),
{
    let mut stack: Vec<(HexPuzzle, Possible)> = Vec::new();
    let mut state = State::Search(puzzle.duplicate());
    proof {
        assert(filled_cells(*puzzle) =~= filled_cells(state->Search_0));
        assert forall|s: HexPuzzle| #[trigger] solves(s, *puzzle) implies state_covers(state, s) by {
            assert forall|r: int, c: int| 0 <= r < 16 && 0 <= c < 16 && #[trigger] state->Search_0.filled(r, c) implies s.cell(r, c) == state->Search_0.cell(r, c) by {
                assert(puzzle.filled(r, c));
            }
        }
    }
    loop
        invariant
            state_ok(state, stack@.len() as int, *puzzle),
            forall|i: int|
                0 <= i < stack@.len() ==> frame_ok(#[trigger] stack@[i].0, stack@[i].1, *puzzle)
                    && i <= filled_cells(stack@[i].0).len(),
            forall|s: HexPuzzle|
                #[trigger] solves(s, *puzzle) ==> state_covers(state, s) || exists|i: int|
                    0 <= i < stack@.len() && covers(#[trigger] stack@[i].0, stack@[i].1, s),
        decreases stack_weight(stack@) + state_weight(state, stack@.len() as int),
    {
        let ghost n = stack@.len() as int;
        let ghost old_stack = stack@;
        let ghost old_state = state;
        proof {
            lemma_stack_weight_nonneg(stack@);
        }
        state = match state {
            State::Search(board) => match board.get_best() {
                None => {
                    return Some(board);
                },
                Some(possible) => {
                    proof {
                        let (row, col) = (possible.row as int, possible.col as int);
                        lemma_ascending_bound(possible.vals@, board.candidates(row, col));
                        assert forall|i: int| 0 <= i < possible.vals@.len() implies board.candidates(row, col).contains(#[trigger] possible.vals@[i]) by {
                            assert(possible.vals@.contains(possible.vals@[i]));
                        }
                        assert forall|s: HexPuzzle| #[trigger] solves(s, *puzzle) && extends(s, board) implies covers(board, possible, s) by {
                            lemma_solution_is_candidate(s, board, row, col);
                        }
                        lemma_scale_positive((300 - n) as nat);
                        let k = possible.vals@.len() as int;
                        let l = level(n);
                        assert(k * l <= 16 * l) by (nonlinear_arith)
                            requires
                                0 <= k <= 16,
                                l >= 1,
                        ;
                    }
                    State::Iterate((board, possible))
                },
            },
            State::Iterate((mut board, mut possible)) => {
                let ghost old_vals = possible.vals@;
                match possible.vals.pop() {
                    None => {
                        proof {
                            let l = level(n);
                            assert(old_vals.len() * l == 0) by (nonlinear_arith)
                                requires
                                    old_vals.len() == 0,
                            ;
                        }
                        State::Backtrack
                    },
                    Some(val) => {
                        let row = possible.row;
                        let col = possible.col;
                        let ghost pre = board;
                        proof {
                            assert(old_vals.contains(val)) by {
                                assert(old_vals[old_vals.len() - 1] == val);
                            }
                            assert(pre.candidates(row as int, col as int).contains(val)) by {
                                assert(old_vals[old_vals.len() - 1] == val);
                            }
                            lemma_filled_bound(pre, row as int, col as int);
                        }
                        let copy = board.duplicate();
                        proof {
                            assert(filled_cells(copy) =~= filled_cells(pre));
                            lemma_same_grid(pre, copy);
                        }
                        stack.push((copy, possible));
                        board.set(row, col, val);
                        proof {
                            lemma_filled_grows(pre, board, row as int, col as int, val as u8);
                            assert forall|r: int, c: int|
                                0 <= r < 16 && 0 <= c < 16 && #[trigger] puzzle.filled(r, c) implies board.cell(r, c) == puzzle.cell(r, c) by {
                                assert(pre.filled(r, c));
                            }
                            assert forall|s: HexPuzzle|
                                #[trigger] solves(s, *puzzle) && extends(s, pre) && old_vals.contains(s.cell(row as int, col as int) as usize)
                                implies extends(s, board) || covers(copy, possible, s) by {
                                let w = s.cell(row as int, col as int) as usize;
                                if w == val {
                                    assert forall|r: int, c: int|
                                        0 <= r < 16 && 0 <= c < 16 && #[trigger] board.filled(r, c) implies s.cell(r, c) == board.cell(r, c) by {
                                        if r != row || c != col {
                                            assert(pre.filled(r, c));
                                        }
                                    }
                                } else {
                                    let j = choose|j: int| 0 <= j < old_vals.len() && old_vals[j] == w;
                                    assert(j != old_vals.len() - 1);
                                    assert(possible.vals@[j] == w);
                                    assert(possible.vals@.contains(w));
                                    assert forall|r: int, c: int|
                                        0 <= r < 16 && 0 <= c < 16 && #[trigger] copy.filled(r, c) implies s.cell(r, c) == copy.cell(r, c) by {
                                        assert(pre.filled(r, c));
                                    }
                                }
                            }
                            assert(stack@ == old_stack.push((copy, possible)));
                            assert(old_stack.push((copy, possible)).drop_last() =~= old_stack);
                            let l1 = level(n + 1);
                            assert(level(n) == 18 * l1);
                            lemma_scale_positive((298 - n) as nat);
                            assert(l1 == 18 * scale((298 - n) as nat));
                            let k = old_vals.len() as int;
                            let k1 = possible.vals@.len() as int;
                            let l0 = level(n);
                            assert(k1 * l0 + 17 * l1 + 2 < k * l0) by (nonlinear_arith)
                                requires
                                    k == k1 + 1,
                                    l0 == 18 * l1,
                                    l1 >= 18,
                            ;
                            assert forall|s: HexPuzzle| #[trigger] solves(s, *puzzle) implies state_covers(State::Search(board), s) || exists|i: int|
                                0 <= i < stack@.len() && covers(#[trigger] stack@[i].0, stack@[i].1, s) by {
                                if !state_covers(old_state, s) {
                                    let i = choose|i: int| 0 <= i < old_stack.len() && covers(#[trigger] old_stack[i].0, old_stack[i].1, s);
                                    assert(stack@[i] == old_stack[i]);
                                    assert(covers(stack@[i].0, stack@[i].1, s));
                                } else if !extends(s, board) {
                                    assert(old_state->Iterate_0.0 == pre);
                                    assert(old_state->Iterate_0.1.vals@ == old_vals);
                                    assert(extends(s, pre) && old_vals.contains(s.cell(row as int, col as int) as usize));
                                    assert(covers(copy, possible, s));
                                    assert(stack@[n] == (copy, possible));
                                    assert(covers(stack@[n].0, stack@[n].1, s));
                                }
                            }
                            assert forall|i: int| 0 <= i < stack@.len() implies frame_ok(#[trigger] stack@[i].0, stack@[i].1, *puzzle)
                                && i <= filled_cells(stack@[i].0).len() by {
                                if i < n {
                                    assert(stack@[i] == old_stack[i]);
                                } else {
                                    assert(stack@[i] == (copy, possible));
                                    assert forall|j: int| 0 <= j < possible.vals@.len() implies pre.candidates(row as int, col as int).contains(#[trigger] possible.vals@[j]) by {
                                        assert(possible.vals@[j] == old_vals[j]);
                                    }
                                }
                            }
                        }
                        State::Search(board)
                    },
                }
            },
            State::Backtrack => match stack.pop() {
                None => {
                    return None;
                },
                Some(frame) => {
                    proof {
                        assert(old_stack =~= stack@.push(frame));
                        assert(old_stack.drop_last() =~= stack@);
                        assert forall|s: HexPuzzle| #[trigger] solves(s, *puzzle) implies state_covers(State::Iterate(frame), s) || exists|i: int|
                            0 <= i < stack@.len() && covers(#[trigger] stack@[i].0, stack@[i].1, s) by {
                            let i = choose|i: int| 0 <= i < old_stack.len() && covers(#[trigger] old_stack[i].0, old_stack[i].1, s);
                            if i < n - 1 {
                                assert(stack@[i] == old_stack[i]);
                                assert(covers(stack@[i].0, stack@[i].1, s));
                            }
                        }
                        assert forall|i: int| 0 <= i < stack@.len() implies frame_ok(#[trigger] stack@[i].0, stack@[i].1, *puzzle)
                            && i <= filled_cells(stack@[i].0).len() by {
                            assert(stack@[i] == old_stack[i]);
                        }
                        assert(frame == old_stack[n - 1]);
                    }
                    State::Iterate(frame)
                },
            },
        };
    }
}

} // verus!
