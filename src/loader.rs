//! Reading a puzzle from its text form: 256 whitespace-separated tokens in
//! row-major order, each a hexadecimal digit or `*` for an empty cell.
use vstd::prelude::*;
use crate::board::{placed_at, HexPuzzle, EMPTY};

verus! {

/// Why a puzzle source was refused.
#[derive(Clone, Copy, Debug, PartialEq, Eq, Structural)]
pub enum LoadError {
    /// The token at this position is neither a hexadecimal digit nor `*`.
    BadToken(usize),
    /// The source ends after this many tokens, short of 256.
    TooFewTokens(usize),
    /// The digit at this position already stands in its row, column or box.
    Conflict(usize),
}

/// ASCII whitespace: space, tab, line feed, form feed, carriage return.
pub open spec fn is_space(b: u8) -> bool {
    b == 32 || b == 9 || b == 10 || b == 12 || b == 13
}

pub open spec fn is_hex(b: u8) -> bool {
    (48 <= b <= 57) || (97 <= b <= 102) || (65 <= b <= 70)
}

/// The value of a hexadecimal digit, either case.
pub open spec fn hex_val(b: u8) -> u8 {
    if 48 <= b <= 57 {
        (b - 48) as u8
    } else if 97 <= b <= 102 {
        (b - 87) as u8
    } else {
        (b - 55) as u8
    }
}

/// The tokens completed so far, and the one being read.
pub open spec fn scan(s: Seq<u8>) -> (Seq<Seq<u8>>, Seq<u8>)
    decreases s.len(),
{
    if s.len() == 0 {
        (Seq::empty(), Seq::empty())
    } else {
        let (t, cur) = scan(s.drop_last());
        if is_space(s.last()) {
            if cur.len() > 0 {
                (t.push(cur), Seq::empty())
            } else {
                (t, cur)
            }
        } else {
            (t, cur.push(s.last()))
        }
    }
}

/// The maximal runs of non-whitespace bytes of `s`, in order.
pub open spec fn tokens(s: Seq<u8>) -> Seq<Seq<u8>> {
    let (t, cur) = scan(s);
    if cur.len() > 0 {
        t.push(cur)
    } else {
        t
    }
}

/// A single hexadecimal digit, or `*`.
pub open spec fn token_ok(t: Seq<u8>) -> bool {
    t.len() == 1 && (t[0] == 42 || is_hex(t[0]))
}

/// What a valid token puts in its cell.
pub open spec fn token_cell(t: Seq<u8>) -> u8 {
    if t.len() == 1 && is_hex(t[0]) {
        hex_val(t[0])
    } else {
        EMPTY
    }
}

/// Token `i` holds a digit that an earlier token placed in the same row,
/// column or box.
pub open spec fn clashes(ts: Seq<Seq<u8>>, i: int) -> bool {
    exists|j: int|
        0 <= j < i && #[trigger] token_cell(ts[j]) != EMPTY && token_cell(ts[j]) == token_cell(ts[i])
            && HexPuzzle::share_unit(j / 16, j % 16, i / 16, i % 16)
}

pub open spec fn token_fails(ts: Seq<Seq<u8>>, i: int) -> bool {
    !token_ok(ts[i]) || (token_cell(ts[i]) != EMPTY && clashes(ts, i))
}

/// Token `i` is among the first 256 and is the first of them to fail.
pub open spec fn first_failure(ts: Seq<Seq<u8>>, i: int) -> bool {
    &&& 0 <= i < ts.len()
    &&& i < 256
    &&& token_fails(ts, i)
    &&& forall|j: int| 0 <= j < i ==> !#[trigger] token_fails(ts, j)
}

/// The first `k` cells in row-major order hold what the first `k` tokens
/// say, and the others are empty.
pub open spec fn cells_from(b: HexPuzzle, ts: Seq<Seq<u8>>, k: int) -> bool {
    forall|r: int, c: int|
        0 <= r < 16 && 0 <= c < 16 ==> #[trigger] b.cell(r, c) == if r * 16 + c < k {
            token_cell(ts[r * 16 + c])
        } else {
            EMPTY
        }
}

/// Splits `s` into tokens, given as start and end positions.
fn token_spans(s: &[u8]) -> (r: Vec<(usize, usize)>)
    ensures
        r@.len() == tokens(s@).len(),
        forall|k: int|
            0 <= k < r@.len() ==> (#[trigger] r@[k]).0 <= r@[k].1 <= s@.len() && s@.subrange(
                r@[k].0 as int,
                r@[k].1 as int,
            ) == tokens(s@)[k],
{
    let mut spans: Vec<(usize, usize)> = Vec::new();
    let mut start: usize = 0;
    let mut i: usize = 0;
    while i < s.len()
        invariant
            start <= i <= s@.len(),
            scan(s@.subrange(0, i as int)).0.len() == spans@.len(),
            scan(s@.subrange(0, i as int)).1 == s@.subrange(start as int, i as int),
            forall|k: int|
                0 <= k < spans@.len() ==> (#[trigger] spans@[k]).0 <= spans@[k].1 <= s@.len()
                    && s@.subrange(spans@[k].0 as int, spans@[k].1 as int) == scan(
                    s@.subrange(0, i as int),
                ).0[k],
        decreases s@.len() - i,
    {
        let ghost pre = s@.subrange(0, i as int);
        assert(s@.subrange(0, i + 1).drop_last() =~= pre);
        assert(s@.subrange(0, i + 1).last() == s@[i as int]);
        if s[i] == 32 || s[i] == 9 || s[i] == 10 || s[i] == 12 || s[i] == 13 {
            if start < i {
                spans.push((start, i));
            }
            start = i + 1;
            assert(s@.subrange(start as int, i + 1) =~= Seq::<u8>::empty());
        } else {
            assert(s@.subrange(start as int, i + 1) =~= s@.subrange(start as int, i as int).push(
                s@[i as int],
            ));
        }
        i += 1;
    }
    assert(s@.subrange(0, i as int) =~= s@);
    if start < i {
        spans.push((start, i));
    }
    spans
}

/// Whether `b` is a hexadecimal digit.
fn hex_digit(b: u8) -> (r: Option<u8>)
    ensures
        r == (if is_hex(b) {
            Some(hex_val(b))
        } else {
            None::<u8>
        }),
{
    if 48 <= b && b <= 57 {
        Some(b - 48)
    } else if 97 <= b && b <= 102 {
        Some(b - 87)
    } else if 65 <= b && b <= 70 {
        Some(b - 55)
    } else {
        None
    }
}

proof fn lemma_index(r: int, c: int)
    requires
        0 <= r < 16,
        0 <= c < 16,
    ensures
        (r * 16 + c) / 16 == r,
        (r * 16 + c) % 16 == c,
{
}

/// While loading, a digit is a candidate of its cell exactly when it does
/// not clash with an earlier token.
proof fn lemma_candidate_iff_no_clash(b: HexPuzzle, ts: Seq<Seq<u8>>, k: int)
    requires
        0 <= k < 256,
        k < ts.len(),
        cells_from(b, ts, k),
        token_cell(ts[k]) < 16,
    ensures
        b.candidates(k / 16, k % 16).contains(token_cell(ts[k]) as usize) <==> !clashes(ts, k),
{
    let (row, col) = (k / 16, k % 16);
    let v = token_cell(ts[k]);
    lemma_index(row, col);
    if clashes(ts, k) {
        let j = choose|j: int|
            0 <= j < k && #[trigger] token_cell(ts[j]) != EMPTY && token_cell(ts[j]) == token_cell(ts[k])
                && HexPuzzle::share_unit(j / 16, j % 16, k / 16, k % 16);
        let (r, c) = (j / 16, j % 16);
        lemma_index(r, c);
        assert(b.cell(r, c) == v);
        assert(b.filled(r, c) && b.cell(r, c) as usize == v as usize);
        if r == row {
            assert(b.filled(row, c) && b.cell(row, c) as usize == v as usize);
            assert(b.row_vals(row).contains(v as usize));
        } else if c == col {
            assert(b.filled(r, col) && b.cell(r, col) as usize == v as usize);
            assert(b.col_vals(col).contains(v as usize));
        } else {
            assert(b.box_vals(crate::board::box_of(row, col)).contains(v as usize));
        }
    }
    if !b.candidates(row, col).contains(v as usize) {
        if b.row_vals(row).contains(v as usize) {
            let c = choose|c: int| 0 <= c < 16 && b.filled(row, c) && b.cell(row, c) as usize == v as usize;
            lemma_index(row, c);
            assert(b.cell(row, c) == v);
            assert(row * 16 + c < k);
            assert(token_cell(ts[row * 16 + c]) != EMPTY);
        } else if b.col_vals(col).contains(v as usize) {
            let r = choose|r: int| 0 <= r < 16 && b.filled(r, col) && b.cell(r, col) as usize == v as usize;
            lemma_index(r, col);
            assert(b.cell(r, col) == v);
            assert(r * 16 + col < k);
            assert(token_cell(ts[r * 16 + col]) != EMPTY);
        } else {
            let (r, c) = choose|r: int, c: int|
                0 <= r < 16 && 0 <= c < 16 && crate::board::box_of(r, c) == crate::board::box_of(row, col)
                    && b.filled(r, c) && b.cell(r, c) as usize == v as usize;
            lemma_index(r, c);
            assert(b.cell(r, c) == v);
            assert(r * 16 + c < k);
            assert(token_cell(ts[r * 16 + c]) != EMPTY);
        }
    }
}

/// A source whose first 256 tokens repeat a digit in one row is refused by
/// `from_source` (its result is `Ok` only when no such token fails); the
/// solver never sees it.
pub proof fn lemma_repeated_digit_refused(s: Seq<u8>, i: int, j: int)
    requires
        0 <= i < j < 256,
        j < tokens(s).len(),
        i / 16 == j / 16,
        token_cell(tokens(s)[i]) != EMPTY,
        token_cell(tokens(s)[i]) == token_cell(tokens(s)[j]),
    ensures
        !(tokens(s).len() >= 256 && forall|k: int| 0 <= k < 256 ==> !#[trigger] token_fails(tokens(s), k)),
{
    let ts = tokens(s);
    assert(HexPuzzle::share_unit(i / 16, i % 16, j / 16, j % 16));
    assert(clashes(ts, j));
    assert(token_fails(ts, j));
}

impl HexPuzzle {
    /// Builds a board from its text form: the first 256 tokens fill the
    /// cells in row-major order and anything after them is ignored. Fails
    /// on the first token that is not a digit or `*`, or whose digit is
    /// already in its row, column or box; or when fewer than 256 tokens come.
    pub fn from_source(s: &[u8]) -> (r: Result<HexPuzzle, LoadError>)
        ensures
            r is Ok <==> tokens(s@).len() >= 256 && forall|j: int|
                0 <= j < 256 ==> !#[trigger] token_fails(tokens(s@), j),
            r matches Ok(b) ==> b.wf() && cells_from(b, tokens(s@), 256),
            r matches Err(LoadError::BadToken(i)) ==> first_failure(tokens(s@), i as int)
                && !token_ok(tokens(s@)[i as int]),
            r matches Err(LoadError::Conflict(i)) ==> first_failure(tokens(s@), i as int) && token_ok(
                tokens(s@)[i as int],
            ),
            r matches Err(LoadError::TooFewTokens(n)) ==> n == tokens(s@).len() && n < 256
                && forall|j: int| 0 <= j < n ==> !#[trigger] token_fails(tokens(s@), j),
    {
        let ghost ts = tokens(s@);
        let spans = token_spans(s);
        let mut puzzle = HexPuzzle::new();
        assert forall|r: int, c: int| 0 <= r < 16 && 0 <= c < 16 implies #[trigger] puzzle.cell(r, c) == EMPTY by {
            assert(!puzzle.filled(r, c));
        }
        let mut index: usize = 0;
        while index < 256 && index < spans.len()
            invariant
                ts == tokens(s@),
                index <= 256,
                index <= spans@.len(),
                spans@.len() == ts.len(),
                forall|k: int|
                    0 <= k < spans@.len() ==> (#[trigger] spans@[k]).0 <= spans@[k].1 <= s@.len()
                        && s@.subrange(spans@[k].0 as int, spans@[k].1 as int) == ts[k],
                puzzle.wf(),
                cells_from(puzzle, ts, index as int),
                forall|j: int| 0 <= j < index ==> !#[trigger] token_fails(ts, j),
            decreases 256 - index,
        {
            let (start, end) = spans[index];
            let ghost t = ts[index as int];
            assert(s@.subrange(start as int, end as int) == t);
            if end - start != 1 {
                assert(token_fails(ts, index as int));
                return Err(LoadError::BadToken(index));
            }
            assert(t[0] == s@[start as int]);
            let byte = s[start];
            if byte != 42 {
                match hex_digit(byte) {
                    None => {
                        assert(token_fails(ts, index as int));
                        return Err(LoadError::BadToken(index));
                    },
                    Some(val) => {
                        let row = index / 16;
                        let col = index % 16;
                        let ghost pre = puzzle;
                        proof {
                            lemma_candidate_iff_no_clash(pre, ts, index as int);
                            lemma_index(row as int, col as int);
                            assert(!pre.filled(row as int, col as int));
                        }
                        if !puzzle.set(row, col, val as usize) {
                            assert(token_fails(ts, index as int));
                            return Err(LoadError::Conflict(index));
                        }
                        proof {
                            assert forall|r: int, c: int| 0 <= r < 16 && 0 <= c < 16 implies #[trigger] puzzle.cell(r, c) == if r * 16 + c < index + 1 {
                                token_cell(ts[r * 16 + c])
                            } else {
                                EMPTY
                            } by {
                                lemma_index(r, c);
                                assert(pre.cell(r, c) == puzzle.cell(r, c) || (r == row && c == col));
                            }
                        }
                    },
                }
            } else {
                proof {
                    assert forall|r: int, c: int| 0 <= r < 16 && 0 <= c < 16 implies #[trigger] puzzle.cell(r, c) == if r * 16 + c < index + 1 {
                        token_cell(ts[r * 16 + c])
                    } else {
                        EMPTY
                    } by {
                        lemma_index(r, c);
                    }
                }
            }
            index += 1;
        }
        if spans.len() < 256 {
            return Err(LoadError::TooFewTokens(spans.len()));
        }
        Ok(puzzle)
    }
}

} // verus!
