//! The board: a 16x16 grid of hexadecimal digits together with, for every
//! row, column and 4x4 box, the set of digits already placed there.
use vstd::prelude::*;
use bit_set::BitSet;
use crate::bitset::{
    bits_of, byte_bit, bytes_set, set_clone, set_contains, set_difference_with, set_with_capacity,
    set_from_bytes, set_insert, set_to_vec, set_union_with,
};

verus! {

/// Marks a cell that holds no digit.
pub const EMPTY: u8 = 255;

/// Index of the 4x4 box that holds cell `(r, c)`.
pub open spec fn box_of(r: int, c: int) -> int {
    (r / 4) * 4 + c / 4
}

/// `vals` lists the members of `s` once each, in ascending order.
pub open spec fn ascending_of(vals: Seq<usize>, s: Set<usize>) -> bool {
    &&& forall|i: int, j: int| 0 <= i < j < vals.len() ==> vals[i] < vals[j]
    &&& forall|v: usize| vals.contains(v) <==> s.contains(v)
}

/// An empty cell and the digits that it may still take.
#[derive(Clone, Debug)]
pub struct Possible {
    pub vals: Vec<usize>,
    pub row: usize,
    pub col: usize,
}

/// A 16x16 grid and, for each row, column and box, the digits placed there.
/// `wf` ties the sets to the grid; `new`, `set` and `from_source` keep it.
#[derive(Clone, Debug)]
pub struct HexPuzzle {
    pub grid: [[u8; 16]; 16],
    pub cols: [BitSet; 16],
    pub rows: [BitSet; 16],
    pub squares: [BitSet; 16],
}

/// A board built by `new` and `set` keeps `wf`, and every board that keeps
/// `wf` passes `is_valid`: the unit sets and the grid never disagree.
pub proof fn lemma_wf_is_valid(b: HexPuzzle)
    requires
        b.wf(),
    ensures
        b.no_conflicts(),
{
}

/// Right after `set(row, col, v)` succeeded, the same call fails: the digit
/// is not counted twice.
pub proof fn lemma_place_twice_fails(pre: HexPuzzle, post: HexPuzzle, row: int, col: int, v: usize)
    requires
        pre.wf(),
        post.wf(),
        0 <= row < 16,
        0 <= col < 16,
        v < 16,
        pre.can_place(row, col, v),
        placed_at(pre, post, row, col, v as u8),
    ensures
        !post.can_place(row, col, v),
{
    assert(post.filled(row, col));
}

/// A candidate of a cell is a digit that no cell of its row, column or box
/// holds.
pub proof fn lemma_candidate_absent(b: HexPuzzle, row: int, col: int, v: usize)
    requires
        b.candidates(row, col).contains(v),
    ensures
        v < 16,
        forall|c: int| 0 <= c < 16 ==> !#[trigger] b.holds(row, c, v),
        forall|r: int| 0 <= r < 16 ==> !#[trigger] b.holds(r, col, v),
        forall|r: int, c: int|
            0 <= r < 16 && 0 <= c < 16 && box_of(r, c) == box_of(row, col) ==> !#[trigger] b.holds(
                r,
                c,
                v,
            ),
{
    assert forall|c: int| 0 <= c < 16 implies !#[trigger] b.holds(row, c, v) by {
        if b.holds(row, c, v) {
            assert(b.row_vals(row).contains(v));
        }
    }
    assert forall|r: int| 0 <= r < 16 implies !#[trigger] b.holds(r, col, v) by {
        if b.holds(r, col, v) {
            assert(b.col_vals(col).contains(v));
        }
    }
    assert forall|r: int, c: int|
        0 <= r < 16 && 0 <= c < 16 && box_of(r, c) == box_of(row, col) implies !#[trigger] b.holds(r, c, v) by {
        if b.holds(r, c, v) {
            assert(b.box_vals(box_of(row, col)).contains(v));
        }
    }
}

/// On a board with no digit, every cell may take all sixteen digits.
pub proof fn lemma_empty_board_candidates(b: HexPuzzle, row: int, col: int)
    requires
        0 <= row < 16,
        0 <= col < 16,
        forall|r: int, c: int| 0 <= r < 16 && 0 <= c < 16 ==> !#[trigger] b.filled(r, c),
    ensures
        b.candidates(row, col) == Set::new(|v: usize| v < 16),
{
    assert(b.row_vals(row) =~= Set::<usize>::empty());
    assert(b.col_vals(col) =~= Set::<usize>::empty());
    assert(b.box_vals(box_of(row, col)) =~= Set::<usize>::empty());
    assert(b.candidates(row, col) =~= Set::new(|v: usize| v < 16));
}

/// On a board with exactly one empty cell, the cell that `get_best` picks
/// (an empty one) is that cell.
pub proof fn lemma_single_empty_cell(b: HexPuzzle, r0: int, c0: int, row: int, col: int)
    requires
        0 <= r0 < 16,
        0 <= c0 < 16,
        !b.filled(r0, c0),
        forall|r: int, c: int|
            0 <= r < 16 && 0 <= c < 16 && (r != r0 || c != c0) ==> #[trigger] b.filled(r, c),
        0 <= row < 16,
        0 <= col < 16,
        !b.filled(row, col),
    ensures
        row == r0 && col == c0,
{
}

/// Sixteen empty sets.
fn empty_sets() -> (r: [BitSet; 16])
    ensures
        forall|i: int| 0 <= i < 16 ==> bits_of(#[trigger] r@[i]) == Set::<usize>::empty(),
{
    [
        set_with_capacity(16), set_with_capacity(16), set_with_capacity(16), set_with_capacity(16),
        set_with_capacity(16), set_with_capacity(16), set_with_capacity(16), set_with_capacity(16),
        set_with_capacity(16), set_with_capacity(16), set_with_capacity(16), set_with_capacity(16),
        set_with_capacity(16), set_with_capacity(16), set_with_capacity(16), set_with_capacity(16),
    ]
}

/// `post` is `pre` with cell `(row, col)` set to `v` and every other cell kept.
pub open spec fn placed_at(pre: HexPuzzle, post: HexPuzzle, row: int, col: int, v: u8) -> bool {
    forall|r: int, c: int|
        0 <= r < 16 && 0 <= c < 16 ==> #[trigger] post.cell(r, c) == if r == row && c == col {
            v
        } else {
            pre.cell(r, c)
        }
}

/// In a strictly increasing list of naturals, entry `i` is at least `i`.
proof fn lemma_at_least_index(vals: Seq<usize>, i: int)
    requires
        forall|a: int, b: int| 0 <= a < b < vals.len() ==> vals[a] < vals[b],
        0 <= i < vals.len(),
    ensures
        vals[i] >= i,
    decreases i,
{
    if i > 0 {
        lemma_at_least_index(vals, i - 1);
    }
}

/// A list of candidates in ascending order has at most sixteen entries.
pub proof fn lemma_ascending_bound(vals: Seq<usize>, s: Set<usize>)
    requires
        ascending_of(vals, s),
        forall|v: usize| s.contains(v) ==> v < 16,
    ensures
        vals.len() <= 16,
{
    if vals.len() > 16 {
        lemma_at_least_index(vals, 16);
        assert(vals.contains(vals[16]));
    }
}

/// A list that holds the members of a set once each, in order, is as long as
/// the set is large.
pub proof fn lemma_ascending_len(vals: Seq<usize>, s: Set<usize>)
    requires
        ascending_of(vals, s),
    ensures
        vals.len() == s.len(),
{
    assert(vals.no_duplicates()) by {
        assert forall|i: int, j: int| 0 <= i < vals.len() && 0 <= j < vals.len() && i != j implies vals[i] != vals[j] by {
            if i < j {
                assert(vals[i] < vals[j]);
            } else {
                assert(vals[j] < vals[i]);
            }
        }
    }
    assert(vals.to_set() =~= s);
    vals.unique_seq_to_set();
}

/// Bytes whose bits are all set give every value below eight times their count.
proof fn lemma_full_bytes(b: Seq<u8>)
    requires
        forall|k: int| 0 <= k < b.len() ==> b[k] == 0xffu8,
    ensures
        bytes_set(b) =~= Set::new(|i: usize| i < 8 * b.len()),
{
    assert forall|j: u8| j < 8 implies #[trigger] byte_bit(0xffu8, j) by {
        assert(j < 8 ==> (0xffu8 >> ((7 - j) as u8)) & 1u8 == 1u8) by (bit_vector);
    }
    assert forall|i: usize| i < 8 * b.len() implies bytes_set(b).contains(i) by {
        assert(b[i as int / 8] == 0xffu8);
        assert(byte_bit(0xffu8, (i % 8) as u8));
    }
}

/// Writing a candidate digit into an empty cell, and adding it to the cell's
/// three unit sets, keeps the board's invariant.
proof fn lemma_place_keeps_wf(pre: HexPuzzle, post: HexPuzzle, row: int, col: int, v: usize)
    requires
        pre.wf(),
        0 <= row < 16,
        0 <= col < 16,
        v < 16,
        !pre.filled(row, col),
        pre.candidates(row, col).contains(v),
        placed_at(pre, post, row, col, v as u8),
        post.rows@ == pre.rows@.update(row, post.rows@[row]),
        post.cols@ == pre.cols@.update(col, post.cols@[col]),
        post.squares@ == pre.squares@.update(box_of(row, col), post.squares@[box_of(row, col)]),
        bits_of(post.rows@[row]) == bits_of(pre.rows@[row]).insert(v),
        bits_of(post.cols@[col]) == bits_of(pre.cols@[col]).insert(v),
        bits_of(post.squares@[box_of(row, col)]) == bits_of(pre.squares@[box_of(row, col)]).insert(v),
    ensures
        post.wf(),
{
    assert(post.filled(row, col) && post.cell(row, col) as usize == v);
    assert forall|r: int| 0 <= r < 16 implies bits_of(#[trigger] post.rows@[r]) == post.row_vals(r) by {
        let target = if r == row {
            pre.row_vals(r).insert(v)
        } else {
            pre.row_vals(r)
        };
        assert forall|x: usize| #[trigger] post.row_vals(r).contains(x) implies target.contains(x) by {
            let c = choose|c: int| 0 <= c < 16 && post.filled(r, c) && post.cell(r, c) as usize == x;
            if r != row || c != col {
                assert(pre.filled(r, c) && pre.cell(r, c) as usize == x);
            }
        }
        assert forall|x: usize| #[trigger] target.contains(x) implies post.row_vals(r).contains(x) by {
            if r == row && x == v {
                assert(post.filled(row, col) && post.cell(row, col) as usize == x);
            } else {
                let c = choose|c: int| 0 <= c < 16 && pre.filled(r, c) && pre.cell(r, c) as usize == x;
                assert(post.filled(r, c) && post.cell(r, c) as usize == x);
            }
        }
        assert(post.row_vals(r) =~= target);
    }
    assert forall|c: int| 0 <= c < 16 implies bits_of(#[trigger] post.cols@[c]) == post.col_vals(c) by {
        let target = if c == col {
            pre.col_vals(c).insert(v)
        } else {
            pre.col_vals(c)
        };
        assert forall|x: usize| #[trigger] post.col_vals(c).contains(x) implies target.contains(x) by {
            let r = choose|r: int| 0 <= r < 16 && post.filled(r, c) && post.cell(r, c) as usize == x;
            if r != row || c != col {
                assert(pre.filled(r, c) && pre.cell(r, c) as usize == x);
            }
        }
        assert forall|x: usize| #[trigger] target.contains(x) implies post.col_vals(c).contains(x) by {
            if c == col && x == v {
                assert(post.filled(row, col) && post.cell(row, col) as usize == x);
            } else {
                let r = choose|r: int| 0 <= r < 16 && pre.filled(r, c) && pre.cell(r, c) as usize == x;
                assert(post.filled(r, c) && post.cell(r, c) as usize == x);
            }
        }
        assert(post.col_vals(c) =~= target);
    }
    assert forall|b: int| 0 <= b < 16 implies bits_of(#[trigger] post.squares@[b]) == post.box_vals(b) by {
        let target = if b == box_of(row, col) {
            pre.box_vals(b).insert(v)
        } else {
            pre.box_vals(b)
        };
        assert forall|x: usize| #[trigger] post.box_vals(b).contains(x) implies target.contains(x) by {
            let (r, c) = choose|r: int, c: int|
                0 <= r < 16 && 0 <= c < 16 && box_of(r, c) == b && post.filled(r, c)
                    && post.cell(r, c) as usize == x;
            if r != row || c != col {
                assert(pre.filled(r, c) && pre.cell(r, c) as usize == x);
            }
        }
        assert forall|x: usize| #[trigger] target.contains(x) implies post.box_vals(b).contains(x) by {
            if b == box_of(row, col) && x == v {
                assert(post.filled(row, col) && post.cell(row, col) as usize == x);
            } else {
                let (r, c) = choose|r: int, c: int|
                    0 <= r < 16 && 0 <= c < 16 && box_of(r, c) == b && pre.filled(r, c)
                        && pre.cell(r, c) as usize == x;
                assert(post.filled(r, c) && post.cell(r, c) as usize == x);
            }
        }
        assert(post.box_vals(b) =~= target);
    }
    assert(!pre.row_vals(row).contains(v));
    assert(!pre.col_vals(col).contains(v));
    assert(!pre.box_vals(box_of(row, col)).contains(v));
    assert forall|r: int, c: int| 0 <= r < 16 && 0 <= c < 16 && #[trigger] post.filled(r, c) implies post.cell(r, c) < 16 by {
        if r != row || c != col {
            assert(pre.filled(r, c));
        }
    }
    assert forall|r: int, c1: int, c2: int|
        0 <= r < 16 && 0 <= c1 < 16 && 0 <= c2 < 16 && c1 != c2 && post.filled(r, c1)
        implies #[trigger] post.cell(r, c1) != #[trigger] post.cell(r, c2) by {
        if r == row && c1 == col {
            if post.cell(r, c2) == v as u8 {
                assert(pre.filled(r, c2) && pre.cell(r, c2) as usize == v);
            }
        } else if r == row && c2 == col {
            if post.cell(r, c1) == v as u8 {
                assert(pre.filled(r, c1) && pre.cell(r, c1) as usize == v);
            }
        } else {
            assert(pre.filled(r, c1));
        }
    }
    assert forall|r1: int, r2: int, c: int|
        0 <= r1 < 16 && 0 <= r2 < 16 && 0 <= c < 16 && r1 != r2 && post.filled(r1, c)
        implies #[trigger] post.cell(r1, c) != #[trigger] post.cell(r2, c) by {
        if c == col && r1 == row {
            if post.cell(r2, c) == v as u8 {
                assert(pre.filled(r2, c) && pre.cell(r2, c) as usize == v);
            }
        } else if c == col && r2 == row {
            if post.cell(r1, c) == v as u8 {
                assert(pre.filled(r1, c) && pre.cell(r1, c) as usize == v);
            }
        } else {
            assert(pre.filled(r1, c));
        }
    }
    assert forall|r1: int, c1: int, r2: int, c2: int|
        0 <= r1 < 16 && 0 <= c1 < 16 && 0 <= r2 < 16 && 0 <= c2 < 16 && (r1 != r2 || c1 != c2)
            && box_of(r1, c1) == box_of(r2, c2) && post.filled(r1, c1)
        implies #[trigger] post.cell(r1, c1) != #[trigger] post.cell(r2, c2) by {
        if r1 == row && c1 == col {
            if post.cell(r2, c2) == v as u8 {
                assert(pre.filled(r2, c2) && pre.cell(r2, c2) as usize == v);
            }
        } else if r2 == row && c2 == col {
            if post.cell(r1, c1) == v as u8 {
                assert(pre.filled(r1, c1) && pre.cell(r1, c1) as usize == v);
            }
        } else {
            assert(pre.filled(r1, c1));
        }
    }
}

/// Copies of sixteen sets.
fn clone_sets(a: &[BitSet; 16]) -> (r: [BitSet; 16])
    ensures
        forall|i: int| 0 <= i < 16 ==> bits_of(#[trigger] r@[i]) == bits_of(a@[i]),
{
    [
        set_clone(&a[0]), set_clone(&a[1]), set_clone(&a[2]), set_clone(&a[3]),
        set_clone(&a[4]), set_clone(&a[5]), set_clone(&a[6]), set_clone(&a[7]),
        set_clone(&a[8]), set_clone(&a[9]), set_clone(&a[10]), set_clone(&a[11]),
        set_clone(&a[12]), set_clone(&a[13]), set_clone(&a[14]), set_clone(&a[15]),
    ]
}

/// Boards with one grid hold the same digits in every unit.
pub proof fn lemma_same_grid(a: HexPuzzle, b: HexPuzzle)
    requires
        a.grid == b.grid,
    ensures
        forall|r: int| #[trigger] a.row_vals(r) == b.row_vals(r),
        forall|c: int| #[trigger] a.col_vals(c) == b.col_vals(c),
        forall|x: int| #[trigger] a.box_vals(x) == b.box_vals(x),
        forall|r: int, c: int| #[trigger] a.candidates(r, c) == b.candidates(r, c),
{
    assert forall|r: int, c: int| #[trigger] a.cell(r, c) == b.cell(r, c) by {}
    assert forall|r: int| #[trigger] a.row_vals(r) == b.row_vals(r) by {
        assert forall|v: usize| a.row_vals(r).contains(v) implies b.row_vals(r).contains(v) by {
            let c = choose|c: int| 0 <= c < 16 && a.filled(r, c) && a.cell(r, c) as usize == v;
            assert(b.filled(r, c) && b.cell(r, c) as usize == v);
        }
        assert forall|v: usize| b.row_vals(r).contains(v) implies a.row_vals(r).contains(v) by {
            let c = choose|c: int| 0 <= c < 16 && b.filled(r, c) && b.cell(r, c) as usize == v;
            assert(a.filled(r, c) && a.cell(r, c) as usize == v);
        }
        assert(a.row_vals(r) =~= b.row_vals(r));
    }
    assert forall|c: int| #[trigger] a.col_vals(c) == b.col_vals(c) by {
        assert forall|v: usize| a.col_vals(c).contains(v) implies b.col_vals(c).contains(v) by {
            let r = choose|r: int| 0 <= r < 16 && a.filled(r, c) && a.cell(r, c) as usize == v;
            assert(b.filled(r, c) && b.cell(r, c) as usize == v);
        }
        assert forall|v: usize| b.col_vals(c).contains(v) implies a.col_vals(c).contains(v) by {
            let r = choose|r: int| 0 <= r < 16 && b.filled(r, c) && b.cell(r, c) as usize == v;
            assert(a.filled(r, c) && a.cell(r, c) as usize == v);
        }
        assert(a.col_vals(c) =~= b.col_vals(c));
    }
    assert forall|x: int| #[trigger] a.box_vals(x) == b.box_vals(x) by {
        assert forall|v: usize| a.box_vals(x).contains(v) implies b.box_vals(x).contains(v) by {
            let (r, c) = choose|r: int, c: int|
                0 <= r < 16 && 0 <= c < 16 && box_of(r, c) == x && a.filled(r, c) && a.cell(r, c) as usize == v;
            assert(b.filled(r, c) && b.cell(r, c) as usize == v);
        }
        assert forall|v: usize| b.box_vals(x).contains(v) implies a.box_vals(x).contains(v) by {
            let (r, c) = choose|r: int, c: int|
                0 <= r < 16 && 0 <= c < 16 && box_of(r, c) == x && b.filled(r, c) && b.cell(r, c) as usize == v;
            assert(a.filled(r, c) && a.cell(r, c) as usize == v);
        }
        assert(a.box_vals(x) =~= b.box_vals(x));
    }
    assert forall|r: int, c: int| #[trigger] a.candidates(r, c) == b.candidates(r, c) by {
        assert(a.candidates(r, c) =~= b.candidates(r, c));
    }
}

impl HexPuzzle {
    /// The value in cell `(r, c)`, `EMPTY` when it holds none.
    pub open spec fn cell(&self, r: int, c: int) -> u8 {
        self.grid@[r]@[c]
    }

    /// Cell `(r, c)` holds a digit.
    pub open spec fn filled(&self, r: int, c: int) -> bool {
        self.cell(r, c) != EMPTY
    }

    /// The digits placed in row `r`.
    pub open spec fn row_vals(&self, r: int) -> Set<usize> {
        Set::new(|v: usize| exists|c: int| 0 <= c < 16 && self.filled(r, c) && self.cell(r, c) as usize == v)
    }

    /// The digits placed in column `c`.
    pub open spec fn col_vals(&self, c: int) -> Set<usize> {
        Set::new(|v: usize| exists|r: int| 0 <= r < 16 && self.filled(r, c) && self.cell(r, c) as usize == v)
    }

    /// The digits placed in box `b`.
    pub open spec fn box_vals(&self, b: int) -> Set<usize> {
        Set::new(
            |v: usize|
                exists|r: int, c: int|
                    0 <= r < 16 && 0 <= c < 16 && box_of(r, c) == b && self.filled(r, c)
                        && self.cell(r, c) as usize == v,
        )
    }

    /// No digit appears twice in a row, a column or a box.
    pub open spec fn no_conflicts(&self) -> bool {
        &&& forall|r: int, c1: int, c2: int|
            0 <= r < 16 && 0 <= c1 < 16 && 0 <= c2 < 16 && c1 != c2 && self.filled(r, c1)
                ==> #[trigger] self.cell(r, c1) != #[trigger] self.cell(r, c2)
        &&& forall|r1: int, r2: int, c: int|
            0 <= r1 < 16 && 0 <= r2 < 16 && 0 <= c < 16 && r1 != r2 && self.filled(r1, c)
                ==> #[trigger] self.cell(r1, c) != #[trigger] self.cell(r2, c)
        &&& forall|r1: int, c1: int, r2: int, c2: int|
            0 <= r1 < 16 && 0 <= c1 < 16 && 0 <= r2 < 16 && 0 <= c2 < 16 && (r1 != r2 || c1
                != c2) && box_of(r1, c1) == box_of(r2, c2) && self.filled(r1, c1)
                ==> #[trigger] self.cell(r1, c1) != #[trigger] self.cell(r2, c2)
    }

    /// Every cell holds a digit.
    pub open spec fn is_full(&self) -> bool {
        forall|r: int, c: int| 0 <= r < 16 && 0 <= c < 16 ==> #[trigger] self.filled(r, c)
    }

    /// The digits that cell `(r, c)` may take: those absent from its row,
    /// its column and its box.
    pub open spec fn candidates(&self, r: int, c: int) -> Set<usize> {
        Set::new(
            |v: usize|
                v < 16 && !self.row_vals(r).contains(v) && !self.col_vals(c).contains(v)
                    && !self.box_vals(box_of(r, c)).contains(v),
        )
    }

    /// The number of digits that cell `(r, c)` may take.
    pub open spec fn count(&self, r: int, c: int) -> nat {
        self.candidates(r, c).len()
    }

    /// `(row, col)` is an empty cell whose candidates, listed in ascending
    /// order, are `vals`, and no empty cell has fewer candidates, nor as few
    /// if it comes earlier in row-major order.
    pub open spec fn is_best(&self, row: int, col: int, vals: Seq<usize>) -> bool {
        &&& 0 <= row < 16
        &&& 0 <= col < 16
        &&& !self.filled(row, col)
        &&& ascending_of(vals, self.candidates(row, col))
        &&& forall|r: int, c: int|
            0 <= r < 16 && 0 <= c < 16 && !#[trigger] self.filled(r, c) ==> vals.len() <= self.count(r, c)
        &&& forall|r: int, c: int|
            0 <= r < 16 && 0 <= c < 16 && r * 16 + c < row * 16 + col && !#[trigger] self.filled(r, c)
                ==> vals.len() < self.count(r, c)
    }

    /// What the scan of `get_best` knows after the first `k` cells in
    /// row-major order.
    pub open spec fn best_upto(&self, best: Option<Possible>, k: int) -> bool {
        match best {
            None => forall|r: int, c: int|
                0 <= r < 16 && 0 <= c < 16 && r * 16 + c < k ==> #[trigger] self.filled(r, c),
            Some(p) => {
                &&& p.row * 16 + p.col < k
                &&& 0 <= p.row < 16
                &&& 0 <= p.col < 16
                &&& !self.filled(p.row as int, p.col as int)
                &&& ascending_of(p.vals@, self.candidates(p.row as int, p.col as int))
                &&& forall|r: int, c: int|
                    0 <= r < 16 && 0 <= c < 16 && r * 16 + c < k && !#[trigger] self.filled(r, c)
                        ==> p.vals.len() <= self.count(r, c)
                &&& forall|r: int, c: int|
                    0 <= r < 16 && 0 <= c < 16 && r * 16 + c < p.row * 16 + p.col
                        && !#[trigger] self.filled(r, c) ==> p.vals.len() < self.count(r, c)
            },
        }
    }

    /// Cell `(r, c)` holds digit `v`, read as a `usize`.
    pub open spec fn holds(&self, r: int, c: int, v: usize) -> bool {
        self.filled(r, c) && self.cell(r, c) as usize == v
    }

    /// `v` stands in row `r` before column `n`.
    pub open spec fn seen_in_row(&self, r: int, n: int, v: usize) -> bool {
        exists|c: int| 0 <= c < n && #[trigger] self.holds(r, c, v)
    }

    /// `v` stands in column `c` among the first `k` cells in row-major order.
    pub open spec fn seen_in_col(&self, c: int, k: int, v: usize) -> bool {
        exists|r: int| 0 <= r < 16 && r * 16 + c < k && #[trigger] self.holds(r, c, v)
    }

    /// `v` stands in box `b` among the first `k` cells in row-major order.
    pub open spec fn seen_in_box(&self, b: int, k: int, v: usize) -> bool {
        exists|r: int, c: int|
            0 <= r < 16 && 0 <= c < 16 && r * 16 + c < k && box_of(r, c) == b && #[trigger] self.holds(
                r,
                c,
                v,
            )
    }

    /// Two distinct cells of one row, column or box.
    pub open spec fn share_unit(r1: int, c1: int, r2: int, c2: int) -> bool {
        (r1 != r2 || c1 != c2) && (r1 == r2 || c1 == c2 || box_of(r1, c1) == box_of(r2, c2))
    }

    /// No unit repeats a digit among the first `k` cells in row-major order.
    pub open spec fn distinct_upto(&self, k: int) -> bool {
        forall|r1: int, c1: int, r2: int, c2: int|
            0 <= r1 < 16 && 0 <= c1 < 16 && 0 <= r2 < 16 && 0 <= c2 < 16 && r1 * 16 + c1 < k && r2
                * 16 + c2 < k && Self::share_unit(r1, c1, r2, c2) && self.filled(r1, c1)
                ==> #[trigger] self.cell(r1, c1) != #[trigger] self.cell(r2, c2)
    }

    /// Every cell holds a digit below 16 or `EMPTY`.
    pub open spec fn digits_ok(&self) -> bool {
        forall|r: int, c: int|
            0 <= r < 16 && 0 <= c < 16 ==> #[trigger] self.filled(r, c) ==> self.cell(r, c) < 16
    }

    /// `set(r, c, v)` succeeds: the cell is empty and `v` is one of its
    /// candidates.
    pub open spec fn can_place(&self, r: int, c: int, v: usize) -> bool {
        !self.filled(r, c) && self.candidates(r, c).contains(v)
    }

    /// The board's invariant: cells hold digits or `EMPTY`, the unit sets
    /// record exactly the digits of the grid, and no unit repeats a digit.
    pub open spec fn wf(&self) -> bool {
        &&& self.digits_ok()
        &&& forall|r: int| 0 <= r < 16 ==> bits_of(#[trigger] self.rows@[r]) == self.row_vals(r)
        &&& forall|c: int| 0 <= c < 16 ==> bits_of(#[trigger] self.cols@[c]) == self.col_vals(c)
        &&& forall|b: int|
            0 <= b < 16 ==> bits_of(#[trigger] self.squares@[b]) == self.box_vals(b)
        &&& self.no_conflicts()
    }

    /// A scan step: the sets of values seen grow by the cell's digit, if any.
    proof fn lemma_seen_step(&self, row: int, col: int)
        requires
            0 <= row < 16,
            0 <= col < 16,
        ensures
            forall|v: usize|
                #[trigger] self.seen_in_row(row, col + 1, v) <==> (self.seen_in_row(row, col, v)
                    || self.holds(row, col, v)),
            forall|c: int, v: usize|
                0 <= c < 16 ==> (#[trigger] self.seen_in_col(c, row * 16 + col + 1, v) <==> (
                self.seen_in_col(c, row * 16 + col, v) || (c == col && self.holds(row, col, v)))),
            forall|b: int, v: usize|
                0 <= b < 16 ==> (#[trigger] self.seen_in_box(b, row * 16 + col + 1, v) <==> (
                self.seen_in_box(b, row * 16 + col, v) || (b == box_of(row, col) && self.holds(
                    row,
                    col,
                    v,
                )))),
    {
        let k = row * 16 + col;
        assert forall|v: usize|
            #[trigger] self.seen_in_row(row, col + 1, v) implies (self.seen_in_row(row, col, v)
                || self.holds(row, col, v)) by {
            let c = choose|c: int| 0 <= c < col + 1 && #[trigger] self.holds(row, c, v);
            if c < col {
                assert(self.seen_in_row(row, col, v));
            }
        }
        assert forall|c: int, v: usize|
            0 <= c < 16 && #[trigger] self.seen_in_col(c, k + 1, v) implies (self.seen_in_col(c, k, v)
                || (c == col && self.holds(row, col, v))) by {
            let r = choose|r: int| 0 <= r < 16 && r * 16 + c < k + 1 && #[trigger] self.holds(r, c, v);
            if r * 16 + c < k {
                assert(self.seen_in_col(c, k, v));
            } else {
                assert(r == row && c == col);
            }
        }
        assert forall|c: int, v: usize|
            0 <= c < 16 && c == col && self.holds(row, col, v) implies #[trigger] self.seen_in_col(c, k + 1, v) by {
            assert(self.holds(row, c, v));
        }
        assert forall|b: int, v: usize|
            0 <= b < 16 && #[trigger] self.seen_in_box(b, k + 1, v) implies (self.seen_in_box(b, k, v)
                || (b == box_of(row, col) && self.holds(row, col, v))) by {
            let (r, c) = choose|r: int, c: int|
                0 <= r < 16 && 0 <= c < 16 && r * 16 + c < k + 1 && box_of(r, c) == b
                    && #[trigger] self.holds(r, c, v);
            if r * 16 + c < k {
                assert(self.seen_in_box(b, k, v));
            } else {
                assert(r == row && c == col);
            }
        }
        assert forall|b: int, v: usize|
            0 <= b < 16 && b == box_of(row, col) && self.holds(row, col, v) implies #[trigger] self.seen_in_box(b, k + 1, v) by {
            assert(self.holds(row, col, v));
        }
    }

    /// A scan step over a digit that no earlier cell of its row, column or
    /// box holds keeps the prefix free of repeats.
    proof fn lemma_scan_step(&self, row: int, col: int)
        requires
            0 <= row < 16,
            0 <= col < 16,
            self.filled(row, col),
            self.distinct_upto(row * 16 + col),
            !self.seen_in_row(row, col, self.cell(row, col) as usize),
            !self.seen_in_col(col, row * 16 + col, self.cell(row, col) as usize),
            !self.seen_in_box(box_of(row, col), row * 16 + col, self.cell(row, col) as usize),
        ensures
            self.distinct_upto(row * 16 + col + 1),
    {
        let k = row * 16 + col;
        let v = self.cell(row, col) as usize;
        assert forall|r1: int, c1: int, r2: int, c2: int|
            0 <= r1 < 16 && 0 <= c1 < 16 && 0 <= r2 < 16 && 0 <= c2 < 16 && r1 * 16 + c1 < k + 1
                && r2 * 16 + c2 < k + 1 && Self::share_unit(r1, c1, r2, c2) && self.filled(r1, c1)
            implies #[trigger] self.cell(r1, c1) != #[trigger] self.cell(r2, c2) by {
            if r1 * 16 + c1 == k {
                assert(r1 == row && c1 == col);
                if self.cell(r2, c2) == self.cell(r1, c1) {
                    assert(self.holds(r2, c2, v));
                    if r2 == row {
                        assert(self.seen_in_row(row, col, v));
                    } else if c2 == col {
                        assert(self.seen_in_col(col, k, v));
                    } else {
                        assert(self.seen_in_box(box_of(row, col), k, v));
                    }
                }
            } else if r2 * 16 + c2 == k {
                assert(r2 == row && c2 == col);
                if self.cell(r2, c2) == self.cell(r1, c1) {
                    assert(self.holds(r1, c1, v));
                    if r1 == row {
                        assert(self.seen_in_row(row, col, v));
                    } else if c1 == col {
                        assert(self.seen_in_col(col, k, v));
                    } else {
                        assert(self.seen_in_box(box_of(row, col), k, v));
                    }
                }
            }
        }
    }

    /// Free of repeats over all cells is free of conflicts.
    proof fn lemma_distinct_all(&self)
        requires
            self.distinct_upto(256),
        ensures
            self.no_conflicts(),
    {
        assert forall|r: int, c1: int, c2: int|
            0 <= r < 16 && 0 <= c1 < 16 && 0 <= c2 < 16 && c1 != c2 && self.filled(r, c1)
            implies #[trigger] self.cell(r, c1) != #[trigger] self.cell(r, c2) by {
            assert(Self::share_unit(r, c1, r, c2));
        }
        assert forall|r1: int, r2: int, c: int|
            0 <= r1 < 16 && 0 <= r2 < 16 && 0 <= c < 16 && r1 != r2 && self.filled(r1, c)
            implies #[trigger] self.cell(r1, c) != #[trigger] self.cell(r2, c) by {
            assert(Self::share_unit(r1, c, r2, c));
        }
        assert forall|r1: int, c1: int, r2: int, c2: int|
            0 <= r1 < 16 && 0 <= c1 < 16 && 0 <= r2 < 16 && 0 <= c2 < 16 && (r1 != r2 || c1 != c2)
                && box_of(r1, c1) == box_of(r2, c2) && self.filled(r1, c1)
            implies #[trigger] self.cell(r1, c1) != #[trigger] self.cell(r2, c2) by {
            assert(Self::share_unit(r1, c1, r2, c2));
        }
    }

    /// An empty board.
    pub fn new() -> (r: Self)
        ensures
            r.wf(),
            forall|i: int, j: int| 0 <= i < 16 && 0 <= j < 16 ==> !#[trigger] r.filled(i, j),
    {
        let r = HexPuzzle {
            grid: [[EMPTY; 16]; 16],
            rows: empty_sets(),
            cols: empty_sets(),
            squares: empty_sets(),
        };
        assert forall|i: int| 0 <= i < 16 implies bits_of(#[trigger] r.rows@[i]) == r.row_vals(i) by {
            assert(r.row_vals(i) =~= Set::<usize>::empty());
        }
        assert forall|i: int| 0 <= i < 16 implies bits_of(#[trigger] r.cols@[i]) == r.col_vals(i) by {
            assert(r.col_vals(i) =~= Set::<usize>::empty());
        }
        assert forall|i: int| 0 <= i < 16 implies bits_of(#[trigger] r.squares@[i]) == r.box_vals(i) by {
            assert(r.box_vals(i) =~= Set::<usize>::empty());
        }
        r
    }

    /// Places `value` in cell `(row, col)`. Fails, changing nothing, when the
    /// cell already holds a digit or when `value` already stands in the
    /// cell's row, column or box (checked in that order).
    pub fn set(&mut self, row: usize, col: usize, value: usize) -> (r: bool)
        requires
            old(self).wf(),
            row < 16,
            col < 16,
            value < 16,
        ensures
            final(self).wf(),
            r == old(self).can_place(row as int, col as int, value),
            r ==> placed_at(*old(self), *final(self), row as int, col as int, value as u8),
            !r ==> *final(self) == *old(self),
    {
        if self.grid[row][col] != EMPTY {
            return false;
        }
        let sq_index = (row / 4) * 4 + col / 4;
        if set_contains(&self.rows[row], value) {
            return false;
        }
        if set_contains(&self.cols[col], value) {
            return false;
        }
        if set_contains(&self.squares[sq_index], value) {
            return false;
        }
        let ghost pre = *self;
        set_insert(&mut self.rows[row], value);
        set_insert(&mut self.cols[col], value);
        set_insert(&mut self.squares[sq_index], value);
        self.grid[row][col] = value as u8;
        proof {
            lemma_place_keeps_wf(pre, *self, row as int, col as int, value);
        }
        true
    }

    /// The digits that cell `(row, col)` may take, in ascending order.
    pub fn get_possible(&self, row: usize, col: usize) -> (r: Vec<usize>)
        requires
            self.wf(),
            row < 16,
            col < 16,
        ensures
            ascending_of(r@, self.candidates(row as int, col as int)),
    {
        let sq_index = (row / 4) * 4 + col / 4;
        let mut active = set_clone(&self.rows[row]);
        set_union_with(&mut active, &self.cols[col]);
        set_union_with(&mut active, &self.squares[sq_index]);
        let bytes: [u8; 2] = [0xff, 0xff];
        let mut possible = set_from_bytes(&bytes);
        proof {
            lemma_full_bytes(bytes@);
            assert(bits_of(possible) =~= Set::new(|i: usize| i < 16));
        }
        set_difference_with(&mut possible, &active);
        assert(bits_of(possible) =~= self.candidates(row as int, col as int));
        set_to_vec(&possible)
    }

    /// The empty cell with the fewest candidates, the first in row-major
    /// order among equals; `None` when every cell holds a digit.
    pub fn get_best(&self) -> (r: Option<Possible>)
        requires
            self.wf(),
        ensures
            r is None <==> self.is_full(),
            r matches Some(p) ==> self.is_best(p.row as int, p.col as int, p.vals@),
    {
        let mut best: Option<Possible> = None;
        let mut row: usize = 0;
        while row < 16
            invariant
                self.wf(),
                row <= 16,
                self.best_upto(best, row * 16),
            decreases 16 - row,
        {
            let mut col: usize = 0;
            while col < 16
                invariant
                    self.wf(),
                    row < 16,
                    col <= 16,
                    self.best_upto(best, row * 16 + col),
                decreases 16 - col,
            {
                if self.get(row, col) == EMPTY {
                    let vals = self.get_possible(row, col);
                    proof {
                        lemma_ascending_len(vals@, self.candidates(row as int, col as int));
                    }
                    let better = match &best {
                        None => true,
                        Some(p) => vals.len() < p.vals.len(),
                    };
                    if better {
                        best = Some(Possible { vals, row, col });
                    }
                }
                col += 1;
            }
            row += 1;
        }
        proof {
            if best is None {
                assert forall|r: int, c: int| 0 <= r < 16 && 0 <= c < 16 implies #[trigger] self.filled(r, c) by {
                    assert(r * 16 + c < 256);
                }
            }
        }
        best
    }

    /// Whether no row, column or box repeats a digit, worked out from the
    /// grid alone, without the unit sets.
    pub fn is_valid(&self) -> (r: bool)
        ensures
            r == self.no_conflicts(),
    {
        let mut squares = empty_sets();
        let mut cols = empty_sets();
        let mut row: usize = 0;
        while row < 16
            invariant
                row <= 16,
                self.distinct_upto(row * 16),
                forall|c: int, v: usize|
                    0 <= c < 16 ==> (#[trigger] bits_of(cols@[c]).contains(v) <==> self.seen_in_col(c, row * 16, v)),
                forall|b: int, v: usize|
                    0 <= b < 16 ==> (#[trigger] bits_of(squares@[b]).contains(v) <==> self.seen_in_box(b, row * 16, v)),
            decreases 16 - row,
        {
            let mut row_set = set_with_capacity(16);
            let big_row = row / 4;
            let mut col: usize = 0;
            while col < 16
                invariant
                    row < 16,
                    col <= 16,
                    big_row == row / 4,
                    self.distinct_upto(row * 16 + col),
                    forall|v: usize| bits_of(row_set).contains(v) <==> self.seen_in_row(row as int, col as int, v),
                    forall|c: int, v: usize|
                        0 <= c < 16 ==> (#[trigger] bits_of(cols@[c]).contains(v) <==> self.seen_in_col(c, row * 16 + col, v)),
                    forall|b: int, v: usize|
                        0 <= b < 16 ==> (#[trigger] bits_of(squares@[b]).contains(v) <==> self.seen_in_box(b, row * 16 + col, v)),
                decreases 16 - col,
            {
                let ghost k = row * 16 + col;
                let value = self.get(row, col) as usize;
                if value != EMPTY as usize {
                    let sq_index = big_row * 4 + col / 4;
                    assert(self.holds(row as int, col as int, value));
                    if !set_insert(&mut row_set, value) {
                        proof {
                            let c = choose|c: int| 0 <= c < col && #[trigger] self.holds(row as int, c, value);
                            assert(self.cell(row as int, c) == self.cell(row as int, col as int));
                        }
                        return false;
                    }
                    if !set_insert(&mut cols[col], value) {
                        proof {
                            let r = choose|r: int| 0 <= r < 16 && r * 16 + col < k && #[trigger] self.holds(r, col as int, value);
                            assert(self.cell(r, col as int) == self.cell(row as int, col as int));
                        }
                        return false;
                    }
                    if !set_insert(&mut squares[sq_index], value) {
                        proof {
                            let (r, c) = choose|r: int, c: int|
                                0 <= r < 16 && 0 <= c < 16 && r * 16 + c < k && box_of(r, c) == sq_index
                                    && #[trigger] self.holds(r, c, value);
                            assert(self.cell(r, c) == self.cell(row as int, col as int));
                        }
                        return false;
                    }
                    proof {
                        self.lemma_scan_step(row as int, col as int);
                    }
                }
                proof {
                    self.lemma_seen_step(row as int, col as int);
                }
                col += 1;
            }
            row += 1;
        }
        proof {
            self.lemma_distinct_all();
        }
        true
    }

    /// An independent copy of the board: same grid, same unit sets.
    pub fn duplicate(&self) -> (r: Self)
        ensures
            r.grid == self.grid,
            self.wf() ==> r.wf(),
    {
        let r = HexPuzzle {
            grid: self.grid,
            cols: clone_sets(&self.cols),
            rows: clone_sets(&self.rows),
            squares: clone_sets(&self.squares),
        };
        proof {
            lemma_same_grid(*self, r);
            if self.wf() {
                assert forall|i: int, j: int| 0 <= i < 16 && 0 <= j < 16 && #[trigger] r.filled(i, j) implies r.cell(i, j) < 16 by {
                    assert(self.filled(i, j));
                }
                assert forall|i: int| 0 <= i < 16 implies bits_of(#[trigger] r.rows@[i]) == r.row_vals(i) by {
                    assert(bits_of(self.rows@[i]) == self.row_vals(i));
                }
                assert forall|i: int| 0 <= i < 16 implies bits_of(#[trigger] r.cols@[i]) == r.col_vals(i) by {
                    assert(bits_of(self.cols@[i]) == self.col_vals(i));
                }
                assert forall|i: int| 0 <= i < 16 implies bits_of(#[trigger] r.squares@[i]) == r.box_vals(i) by {
                    assert(bits_of(self.squares@[i]) == self.box_vals(i));
                }
                assert forall|i: int, c1: int, c2: int|
                    0 <= i < 16 && 0 <= c1 < 16 && 0 <= c2 < 16 && c1 != c2 && r.filled(i, c1)
                    implies #[trigger] r.cell(i, c1) != #[trigger] r.cell(i, c2) by {
                    assert(self.cell(i, c1) != self.cell(i, c2));
                }
                assert forall|r1: int, r2: int, c: int|
                    0 <= r1 < 16 && 0 <= r2 < 16 && 0 <= c < 16 && r1 != r2 && r.filled(r1, c)
                    implies #[trigger] r.cell(r1, c) != #[trigger] r.cell(r2, c) by {
                    assert(self.cell(r1, c) != self.cell(r2, c));
                }
                assert forall|r1: int, c1: int, r2: int, c2: int|
                    0 <= r1 < 16 && 0 <= c1 < 16 && 0 <= r2 < 16 && 0 <= c2 < 16 && (r1 != r2 || c1 != c2)
                        && box_of(r1, c1) == box_of(r2, c2) && r.filled(r1, c1)
                    implies #[trigger] r.cell(r1, c1) != #[trigger] r.cell(r2, c2) by {
                    assert(self.cell(r1, c1) != self.cell(r2, c2));
                }
            }
        }
        r
    }

    /// The value in cell `(row, col)`, `EMPTY` when it holds none.
    pub fn get(&self, row: usize, col: usize) -> (r: u8)
        requires
            row < 16,
            col < 16,
        ensures
            r == self.cell(row as int, col as int),
    {
        self.grid[row][col]
    }
}

} // verus!
