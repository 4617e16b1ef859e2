//! The grid state: given digits, candidate sets of the open cells, the count of
//! unresolved cells and a log of every change.
use std::collections::HashSet;
use vstd::prelude::*;
use crate::count::{
    count_true, last_true, lemma_count_all, lemma_count_bound, lemma_count_one,
    lemma_count_positive, lemma_count_update, lemma_count_zero,
};

verus! {

/// Box order: the grid is made of `ORDER` × `ORDER` boxes.
pub const ORDER: u32 = 3;

/// Side of the grid, and the largest value a cell can hold.
pub const SIZE: u32 = 9;

/// Number of cells.
pub const VOLUME: u32 = 81;

/// Flat position of a cell, `y * SIZE + x`.
pub type Index = usize;

/// A cell value: `1..=SIZE`, with 0 standing for "not known yet".
pub type Value = u32;

/// What a logged change did to its cell.
#[allow(non_camel_case_types)]
pub enum ProgressType {
    FILL,
    ELIMINATE,
}

/// One logged change: a value was filled into a cell or removed from its candidates.
pub struct Progress {
    kind: ProgressType,
    index: Index,
    value: Value,
}

/// A parsed puzzle: the given digit of every cell, 0 where blank.
pub struct SudokuPuzzle {
    values: Vec<Value>,
}

/// Why a puzzle string was rejected.
#[derive(Debug, PartialEq, Eq, Structural)]
pub enum FormatError {
    /// The string does not hold exactly `VOLUME` characters.
    WrongLength,
    /// A character is not a decimal digit.
    NotADigit,
}

/// The solving state of one puzzle.
pub struct Sudoku {
    puzzle: SudokuPuzzle,
    /// Nine flags per cell: `marks[9 * i + (v - 1)]` tells whether `v` is still
    /// possible in the open cell `i`. Given cells have no flag set.
    marks: Vec<bool>,
    /// Number of cells whose effective value is still 0.
    empty: u32,
    history: Vec<Progress>,
}

/// A cell address, column `x` and row `y`.
pub struct Point {
    pub x: u32,
    pub y: u32,
}

pub open spec fn is_digit(c: char) -> bool {
    '0' as u32 <= c as u32 && c as u32 <= '9' as u32
}

pub open spec fn digit_value(c: char) -> u32 {
    (c as u32 - '0' as u32) as u32
}

/// The values that a string of digits stands for.
pub open spec fn digits_of(s: Seq<char>) -> Seq<u32> {
    Seq::new(s.len(), |k: int| digit_value(s[k]))
}

impl Point {
    pub fn new(x: u32, y: u32) -> (r: Self)
        ensures
            r.x == x,
            r.y == y,
    {
        Self { x, y }
    }
}

/// Flat index of a point.
pub fn index(point: &Point) -> (r: Index)
    requires
        point.x < 9,
        point.y < 9,
    ensures
        r == 9 * point.y + point.x,
{
    (point.y * SIZE + point.x) as Index
}

/// Column and row of a flat index.
pub fn point(i: Index) -> (r: (u32, u32))
    requires
        i < 81,
    ensures
        r.0 == i % 9,
        r.1 == i / 9,
        9 * r.1 + r.0 == i,
{
    ((i as u32) % SIZE, (i as u32) / SIZE)
}

impl SudokuPuzzle {
    /// The given digits, cell by cell.
    pub closed spec fn givens(self) -> Seq<u32> {
        self.values@
    }

    pub open spec fn wf(self) -> bool {
        &&& self.givens().len() == 81
        &&& forall|i: int| 0 <= i < 81 ==> #[trigger] self.givens()[i] <= 9
    }
}

/// Parses a puzzle: one decimal digit per cell, row by row, 0 for a blank.
pub fn from_string(string: &str) -> (r: Result<SudokuPuzzle, FormatError>)
    ensures
        string@.len() != 81 <==> r == Err::<SudokuPuzzle, FormatError>(FormatError::WrongLength),
        (string@.len() == 81 && exists|k: int| 0 <= k < 81 && !is_digit(#[trigger] string@[k]))
            <==> r == Err::<SudokuPuzzle, FormatError>(FormatError::NotADigit),
        string@.len() == 81 && (forall|k: int| 0 <= k < 81 ==> is_digit(#[trigger] string@[k])) ==> r is Ok,
        r is Ok ==> {
            &&& r->Ok_0.wf()
            &&& r->Ok_0.givens() == digits_of(string@)
            &&& forall|k: int| 0 <= k < 81 ==> is_digit(#[trigger] string@[k])
        },
{
    let n = string.unicode_len();
    if n != 81 {
        return Err(FormatError::WrongLength);
    }
    let mut values: Vec<Value> = Vec::new();
    let mut i: usize = 0;
    while i < n
        invariant
            n == string@.len(),
            n == 81,
            i <= n,
            values@.len() == i,
            forall|k: int| 0 <= k < i ==> is_digit(#[trigger] string@[k]),
            forall|k: int| 0 <= k < i ==> values@[k] == digit_value(#[trigger] string@[k]),
        decreases n - i,
    {
        let c = string.get_char(i);
        if !('0' as u32 <= c as u32 && c as u32 <= '9' as u32) {
            return Err(FormatError::NotADigit);
        }
        values.push(c as u32 - '0' as u32);
        i += 1;
    }
    let r = SudokuPuzzle { values };
    assert(r.givens() =~= digits_of(string@));
    Ok(r)
}

impl Sudoku {
    /// The given digit of cell `i`, 0 where the cell was blank.
    pub closed spec fn fixed(self, i: int) -> u32 {
        self.puzzle.values@[i]
    }

    /// The given digits of all cells.
    pub closed spec fn givens(self) -> Seq<u32> {
        self.puzzle.values@
    }

    /// The candidate flags of cell `i`: entry `v - 1` for value `v`.
    pub closed spec fn window(self, i: int) -> Seq<bool> {
        self.marks@.subrange(9 * i, 9 * i + 9)
    }

    /// Whether `v` is still in the candidate set of the open cell `i`.
    pub open spec fn has_candidate(self, i: int, v: int) -> bool {
        1 <= v <= 9 && self.window(i)[v - 1]
    }

    /// Size of the candidate set of cell `i` (0 for a given cell).
    pub open spec fn num_candidates(self, i: int) -> nat {
        count_true(self.window(i))
    }

    /// Effective value of cell `i`: its given digit, else its only candidate,
    /// else 0.
    pub open spec fn value(self, i: int) -> u32 {
        if self.fixed(i) > 0 {
            self.fixed(i)
        } else if self.num_candidates(i) == 1 {
            (last_true(self.window(i)) + 1) as u32
        } else {
            0
        }
    }

    /// Whether cell `i` still allows `v`.
    pub open spec fn allows(self, i: int, v: u32) -> bool {
        if self.fixed(i) > 0 {
            self.fixed(i) == v
        } else {
            self.has_candidate(i, v as int)
        }
    }

    /// The number of cells not yet resolved, as the state counts it.
    pub closed spec fn remaining(self) -> nat {
        self.empty as nat
    }

    /// Number of changes made so far.
    pub closed spec fn progress_count(self) -> nat {
        self.history@.len()
    }

    /// Number of candidates over all cells.
    pub closed spec fn total_candidates(self) -> nat {
        count_true(self.marks@)
    }

    /// For each cell, whether its effective value is 0.
    pub open spec fn open_flags(self) -> Seq<bool> {
        Seq::new(81, |i: int| self.value(i) == 0)
    }

    /// The invariant of the state: a cell is given or has a nonempty candidate
    /// set, never both, and `remaining` counts the cells whose value is 0.
    pub closed spec fn wf(self) -> bool {
        &&& self.puzzle.wf()
        &&& self.marks@.len() == 729
        &&& forall|i: int| 0 <= i < 81 && self.fixed(i) > 0 ==> #[trigger] self.num_candidates(i) == 0
        &&& forall|i: int| 0 <= i < 81 && self.fixed(i) == 0 ==> #[trigger] self.num_candidates(i) >= 1
        &&& self.remaining() == count_true(self.open_flags())
    }

    /// `self` was reached from `prev` by zero or more changes: the givens stay,
    /// the log only grows and each entry removes at least one candidate, the
    /// unresolved count never rises, and resolved cells keep their value. No
    /// logged change means no change at all; while no cell gets resolved, the
    /// values stay and the candidates only shrink.
    pub open spec fn advanced_from(self, prev: Sudoku) -> bool {
        &&& self.wf()
        &&& self.givens() == prev.givens()
        &&& forall|j: int| 0 <= j < 81 ==> #[trigger] self.fixed(j) == prev.fixed(j)
        &&& prev.progress_count() <= self.progress_count()
        &&& self.total_candidates() + self.progress_count() <= prev.total_candidates()
            + prev.progress_count()
        &&& self.remaining() <= prev.remaining()
        &&& forall|j: int|
            0 <= j < 81 && #[trigger] prev.value(j) != 0 ==> self.value(j) == prev.value(j)
        &&& self.progress_count() == prev.progress_count() ==> self == prev
        &&& self.remaining() == prev.remaining() ==> {
            &&& forall|j: int| 0 <= j < 81 ==> #[trigger] self.value(j) == prev.value(j)
            &&& forall|j: int, v: u32| 0 <= j < 81 && #[trigger] self.allows(j, v) ==> prev.allows(j, v)
        }
    }

    /// Facts every valid state gives of a cell: exactly one of "given" and
    /// "has a nonempty candidate set" holds, a cell with a single candidate
    /// shows that candidate, and an unresolved cell has at least two.
    pub proof fn lemma_cell(self, i: int)
        requires
            self.wf(),
            0 <= i < 81,
        ensures
            (self.fixed(i) != 0) != (self.num_candidates(i) >= 1),
            self.fixed(i) <= 9,
            self.value(i) <= 9,
            self.num_candidates(i) <= 9,
            forall|v: int| #[trigger]
                self.has_candidate(i, v) && self.num_candidates(i) == 1 ==> self.value(i) == v,
            self.value(i) != 0 ==> self.allows(i, self.value(i)),
            self.value(i) == 0 ==> self.fixed(i) == 0 && self.num_candidates(i) >= 2,
            self.value(i) != 0 && self.fixed(i) == 0 ==> self.num_candidates(i) == 1,
            forall|v: u32| #[trigger] self.allows(i, v) ==> 1 <= v <= 9,
            self.remaining() <= 81,
            self.fixed(i) == self.givens()[i],
            self.remaining() == count_true(self.open_flags()),
            self.value(i) != 0 ==> forall|v: u32| #[trigger] self.allows(i, v) ==> v == self.value(i),
    {
        lemma_count_bound(self.open_flags());
        let w = self.window(i);
        lemma_count_bound(w);
        assert(self.fixed(i) == self.puzzle.givens()[i]);
        assert forall|v: int| #[trigger]
            self.has_candidate(i, v) && self.num_candidates(i) == 1 implies self.value(i) == v by {
            lemma_count_one(w, v - 1);
        }
        if self.fixed(i) == 0 && self.num_candidates(i) == 1 {
            lemma_count_zero(w);
            let q = choose|q: int| 0 <= q < w.len() && w[q];
            lemma_count_one(w, q);
        }
        lemma_count_zero(w);
    }
}


impl Sudoku {
    /// The state that `new(puzzle)` sets up: the givens of `puzzle`, every
    /// value possible in every blank cell, the blanks counted as unresolved,
    /// and no change logged.
    pub open spec fn built_from(self, puzzle: SudokuPuzzle) -> bool {
        &&& self.wf()
        &&& self.givens() == puzzle.givens()
        &&& forall|i: int, v: int|
            0 <= i < 81 && puzzle.givens()[i] == 0 && 1 <= v <= 9 ==> #[trigger] self.has_candidate(i, v)
        &&& forall|i: int| 0 <= i < 81 ==> #[trigger] self.value(i) == puzzle.givens()[i]
        &&& self.remaining() == count_true(Seq::new(81, |i: int| puzzle.givens()[i] == 0))
        &&& self.progress_count() == 0
    }

    /// Sets up the state of a parsed puzzle: every blank cell may hold any of
    /// `1..=SIZE`, and the unresolved count is the number of blanks.
    pub fn new(puzzle: SudokuPuzzle) -> (r: Self)
        requires
            puzzle.wf(),
        ensures
            r.built_from(puzzle),
    {
        let mut marks: Vec<bool> = Vec::new();
        let mut empty_count: u32 = 0;
        let mut i: usize = 0;
        let ghost zeros = Seq::new(81, |k: int| puzzle.givens()[k] == 0);
        while i < 81
            invariant
                puzzle.wf(),
                zeros == Seq::new(81, |k: int| puzzle.givens()[k] == 0),
                i <= 81,
                marks@.len() == 9 * i,
                forall|q: int| 0 <= q < 9 * i ==> #[trigger] marks@[q] == (puzzle.givens()[q / 9] == 0),
                empty_count == count_true(zeros.subrange(0, i as int)),
            decreases 81 - i,
        {
            let blank = puzzle.values[i] == 0;
            let mut n: usize = 0;
            while n < 9
                invariant
                    puzzle.wf(),
                    i < 81,
                    n <= 9,
                    marks@.len() == 9 * i + n,
                    forall|q: int| 0 <= q < 9 * i + n ==> #[trigger] marks@[q] == (puzzle.givens()[q / 9] == 0),
                    blank == (puzzle.givens()[i as int] == 0),
                decreases 9 - n,
            {
                marks.push(blank);
                n += 1;
            }
            proof {
                assert(zeros.subrange(0, i + 1).drop_last() =~= zeros.subrange(0, i as int));
                lemma_count_bound(zeros.subrange(0, i as int));
            }
            if blank {
                empty_count += 1;
            }
            i += 1;
        }
        let r = Sudoku { puzzle, marks, empty: empty_count, history: Vec::new() };
        assert forall|k: int| 0 <= k < 81 implies #[trigger] r.window(k) == r.window(k) && r.value(k) == puzzle.givens()[k] && (
        puzzle.givens()[k] == 0 ==> r.num_candidates(k) == 9) && (puzzle.givens()[k] != 0
            ==> r.num_candidates(k) == 0) by {
            let w = r.window(k);
            assert forall|q: int| 0 <= q < 9 implies w[q] == (puzzle.givens()[k] == 0) by {
                assert((9 * k + q) / 9 == k);
            }
            if puzzle.givens()[k] == 0 {
                lemma_count_all(w);
            } else {
                lemma_count_zero(w);
            }
        }
        assert(r.open_flags() =~= zeros);
        assert(forall|k: int| 0 <= k < 81 && r.fixed(k) > 0 ==> #[trigger] r.num_candidates(k) == 0);
        assert(forall|k: int| 0 <= k < 81 && r.fixed(k) == 0 ==> #[trigger] r.num_candidates(k) >= 1);
        assert(zeros.subrange(0, 81) =~= zeros);
        r
    }

    /// Effective value of cell `i`, read off the flags.
    fn cell_value(&self, i: Index) -> (r: Value)
        requires
            self.puzzle.values@.len() == 81,
            self.marks@.len() == 729,
            i < 81,
        ensures
            r == self.value(i as int),
    {
        let f = self.puzzle.values[i];
        if f > 0 {
            return f;
        }
        let ghost w = self.window(i as int);
        let mut count: u32 = 0;
        let mut last: u32 = 0;
        let mut k: usize = 0;
        while k < 9
            invariant
                self.marks@.len() == 729,
                i < 81,
                w == self.window(i as int),
                k <= 9,
                count == count_true(w.subrange(0, k as int)),
                last == last_true(w.subrange(0, k as int)) + 1,
            decreases 9 - k,
        {
            proof {
                assert(w.subrange(0, k + 1).drop_last() =~= w.subrange(0, k as int));
                lemma_count_bound(w.subrange(0, k as int));
            }
            if self.marks[9 * i + k] {
                count += 1;
                last = (k + 1) as u32;
            }
            k += 1;
        }
        assert(w.subrange(0, 9) =~= w);
        if count == 1 {
            last
        } else {
            0
        }
    }

    /// Effective value of cell `i`: its given digit, else its only remaining
    /// candidate, else 0.
    pub fn view(&self, i: Index) -> (r: Value)
        requires
            self.wf(),
            i < 81,
        ensures
            r == self.value(i as int),
    {
        self.cell_value(i)
    }

    /// Whether cell `i` still allows `val`: a given cell allows its own digit
    /// only, an open cell the members of its candidate set.
    pub fn is_candidate(&self, i: Index, val: Value) -> (r: bool)
        requires
            self.wf(),
            i < 81,
        ensures
            r == self.allows(i as int, val),
    {
        let f = self.puzzle.values[i];
        if f > 0 {
            f == val
        } else if 1 <= val && val <= SIZE {
            self.marks[9 * i + (val - 1) as usize]
        } else {
            false
        }
    }

    /// Whether every cell is resolved.
    pub fn complete(&self) -> (r: bool)
        ensures
            r == (self.remaining() == 0),
    {
        self.empty == 0
    }

    /// Number of changes made so far; equal readings around a pass mean the
    /// pass deduced nothing.
    pub fn progress(&self) -> (r: usize)
        ensures
            r == self.progress_count(),
    {
        self.history.len()
    }
}

impl Sudoku {
    /// What `eliminate(i, val)` does: where the cell is unresolved and still
    /// allows `val`, `val` leaves its candidates and one change is logged (the
    /// unresolved count drops by one if a single candidate is left); otherwise
    /// nothing changes.
    pub open spec fn eliminated(self, prev: Sudoku, i: int, val: u32) -> bool {
        &&& self.advanced_from(prev)
        &&& prev.value(i) == 0 && prev.allows(i, val) ==> {
            &&& forall|j: int, w: int|
                0 <= j < 81 ==> #[trigger] self.has_candidate(j, w) == (prev.has_candidate(j, w) && !(j
                    == i && w == val))
            &&& self.num_candidates(i) + 1 == prev.num_candidates(i)
            &&& forall|j: int| 0 <= j < 81 && j != i ==> #[trigger] self.value(j) == prev.value(j)
            &&& self.remaining() + (if self.value(i) != 0 { 1int } else { 0int }) == prev.remaining()
            &&& self.progress_count() == prev.progress_count() + 1
        }
        &&& !(prev.value(i) == 0 && prev.allows(i, val)) ==> self == prev
    }

    /// What `fill(i, val)` does: an unresolved cell gets the candidate set
    /// `{val}`, the unresolved count drops by one and one change is logged; a
    /// resolved cell is left as it is.
    pub open spec fn filled(self, prev: Sudoku, i: int, val: u32) -> bool {
        &&& self.advanced_from(prev)
        &&& prev.value(i) == 0 ==> {
            &&& forall|j: int, w: int|
                0 <= j < 81 ==> #[trigger] self.has_candidate(j, w) == if j == i {
                    w == val
                } else {
                    prev.has_candidate(j, w)
                }
            &&& self.value(i) == val
            &&& forall|j: int| 0 <= j < 81 && j != i ==> #[trigger] self.value(j) == prev.value(j)
            &&& self.remaining() + 1 == prev.remaining()
            &&& self.progress_count() == prev.progress_count() + 1
        }
        &&& prev.value(i) != 0 ==> self == prev
    }

    /// A change confined to the flags of the open, unresolved cell `i` keeps
    /// the invariant once the unresolved count follows the cell.
    proof fn lemma_cell_changed(prev: Sudoku, next: Sudoku, i: int)
        requires
            prev.wf(),
            0 <= i < 81,
            prev.value(i) == 0,
            next.puzzle == prev.puzzle,
            next.marks@.len() == 729,
            forall|q: int| 0 <= q < 729 && !(9 * i <= q < 9 * i + 9) ==> next.marks@[q] == prev.marks@[q],
            next.num_candidates(i) >= 1,
            next.empty + (if next.value(i) != 0 { 1int } else { 0int }) == prev.empty,
        ensures
            next.wf(),
            forall|j: int| 0 <= j < 81 && j != i ==> #[trigger] next.window(j) == prev.window(j),
            forall|j: int| 0 <= j < 81 && j != i ==> #[trigger] next.value(j) == prev.value(j),
    {
        assert forall|j: int| 0 <= j < 81 && j != i implies #[trigger] next.window(j) == prev.window(j) by {
            assert(next.window(j) =~= prev.window(j));
        }
        assert(next.open_flags() =~= prev.open_flags().update(i, next.value(i) == 0));
        lemma_count_update(prev.open_flags(), i, next.value(i) == 0);
        prev.lemma_cell(i);
        assert(forall|j: int| 0 <= j < 81 && j != i ==> next.fixed(j) == prev.fixed(j));
        assert forall|j: int| 0 <= j < 81 implies (next.fixed(j) > 0 ==> #[trigger] next.num_candidates(j)
            == 0) && (next.fixed(j) == 0 ==> next.num_candidates(j) >= 1) by {
            assert(next.fixed(j) == prev.fixed(j));
            if j != i {
                assert(next.window(j) == prev.window(j));
                assert(next.num_candidates(j) == prev.num_candidates(j));
            }
        }
    }

    /// Removes `val` from the candidates of cell `i`, when the cell is still
    /// unresolved and allows `val`. A given cell, a resolved cell, and a value
    /// already gone are left alone.
    pub fn eliminate(&mut self, i: Index, val: Value)
        requires
            old(self).wf(),
            i < 81,
        ensures
            final(self).eliminated(*old(self), i as int, val),
    {
        if self.cell_value(i) == 0 && self.is_candidate(i, val) {
            let ghost prev = *self;
            proof {
                prev.lemma_cell(i as int);
                lemma_count_positive(prev.open_flags(), i as int);
            }
            let p: usize = 9 * i + (val - 1) as usize;
            self.marks[p] = false;
            proof {
                assert(self.window(i as int) =~= prev.window(i as int).update(val - 1, false));
                lemma_count_update(prev.window(i as int), val - 1, false);
                lemma_count_update(prev.marks@, p as int, false);
            }
            if self.cell_value(i) != 0 {
                self.empty = self.empty - 1;
            }
            self.history.push(Progress { kind: ProgressType::ELIMINATE, index: i, value: val });
            proof {
                Self::lemma_cell_changed(prev, *self, i as int);
                self.lemma_cell(i as int);
            }
        }
    }

    /// Resolves cell `i` to `val` when its effective value is still 0; leaves
    /// a given or already resolved cell alone.
    pub fn fill(&mut self, i: Index, val: Value)
        requires
            old(self).wf(),
            i < 81,
            1 <= val <= 9,
        ensures
            final(self).filled(*old(self), i as int, val),
    {
        if self.cell_value(i) == 0 {
            let ghost prev = *self;
            proof {
                prev.lemma_cell(i as int);
                lemma_count_positive(prev.open_flags(), i as int);
            }
            let ghost w0 = prev.window(i as int);
            let mut k: usize = 0;
            while k < 9
                invariant
                    i < 81,
                    1 <= val <= 9,
                    k <= 9,
                    w0 == prev.window(i as int),
                    prev.marks@.len() == 729,
                    self.marks@.len() == 729,
                    self.puzzle == prev.puzzle,
                    self.empty == prev.empty,
                    self.history == prev.history,
                    forall|q: int|
                        0 <= q < 729 ==> #[trigger] self.marks@[q] == if 9 * i <= q < 9 * i + k {
                            q - 9 * i + 1 == val
                        } else {
                            prev.marks@[q]
                        },
                    count_true(self.marks@) + count_true(w0.subrange(0, k as int)) == count_true(
                        prev.marks@,
                    ) + (if val <= k { 1int } else { 0int }),
                decreases 9 - k,
            {
                proof {
                    assert(w0.subrange(0, k + 1).drop_last() =~= w0.subrange(0, k as int));
                    lemma_count_update(self.marks@, 9 * i + k, k + 1 == val);
                }
                self.marks[9 * i + k] = k + 1 == val as usize;
                k += 1;
            }
            let ghost w1 = self.window(i as int);
            proof {
                assert(w0.subrange(0, 9) =~= w0);
                assert(w1 =~= Seq::new(9, |q: int| q + 1 == val));
                assert(count_true(w1) == 1) by {
                    lemma_count_positive(w1, val - 1);
                    lemma_count_bound(w1);
                    if count_true(w1) != 1 {
                        assert(w1 =~= w1.update(val - 1, true));
                        lemma_count_update(w1, val - 1, false);
                        assert(w1.update(val - 1, false) =~= Seq::new(9, |q: int| false));
                        lemma_count_zero(w1.update(val - 1, false));
                    }
                }
                lemma_count_one(w1, val - 1);
            }
            self.empty = self.empty - 1;
            self.history.push(Progress { kind: ProgressType::FILL, index: i, value: val });
            proof {
                Self::lemma_cell_changed(prev, *self, i as int);
            }
        }
    }
}

impl Sudoku {
    /// Effective values of all cells.
    pub open spec fn values(self) -> Seq<u32> {
        Seq::new(81, |i: int| self.value(i))
    }

    /// The grid as `VOLUME` digits, row by row: each cell's effective value, 0
    /// where still unknown.
    pub fn to_string(&self) -> (r: String)
        requires
            self.wf(),
        ensures
            r@.len() == 81,
            forall|k: int| 0 <= k < 81 ==> is_digit(#[trigger] r@[k]),
            digits_of(r@) == self.values(),
    {
        let digits = "0123456789";
        proof {
            reveal_strlit("0123456789");
        }
        let mut string = String::new();
        let mut i: usize = 0;
        while i < 81
            invariant
                self.wf(),
                digits@ == "0123456789"@,
                digits@.len() == 10,
                forall|d: int| 0 <= d < 10 ==> is_digit(#[trigger] digits@[d]) && digit_value(digits@[d]) == d,
                i <= 81,
                string@.len() == i,
                forall|k: int| 0 <= k < i ==> is_digit(#[trigger] string@[k]),
                forall|k: int| 0 <= k < i ==> digit_value(#[trigger] string@[k]) == self.value(k),
            decreases 81 - i,
        {
            let d = self.view(i) as usize;
            proof {
                self.lemma_cell(i as int);
            }
            string.append(digits.substring_char(d, d + 1));
            i += 1;
        }
        assert(digits_of(string@) =~= self.values());
        string
    }

    /// Idempotence of elimination: a second `eliminate(i, v)` right after the
    /// first changes nothing.
    pub proof fn lemma_eliminate_idempotent(s0: Sudoku, s1: Sudoku, s2: Sudoku, i: int, v: u32)
        requires
            s0.wf(),
            0 <= i < 81,
            s1.eliminated(s0, i, v),
            s2.eliminated(s1, i, v),
        ensures
            s2 == s1,
    {
        assert(s1.fixed(i) == s0.fixed(i));
        if s0.value(i) == 0 && s0.allows(i, v) {
            s0.lemma_cell(i);
            assert(!s1.has_candidate(i, v as int));
        }
    }

    /// Fill guard: `fill` on a cell whose effective value is nonzero keeps that
    /// value and the unresolved count.
    pub proof fn lemma_fill_guard(s0: Sudoku, s1: Sudoku, i: int, v: u32)
        requires
            s0.wf(),
            0 <= i < 81,
            s0.value(i) != 0,
            s1.filled(s0, i, v),
        ensures
            s1.value(i) == s0.value(i),
            s1.remaining() == s0.remaining(),
    {
    }

    /// Changes compose: a state reached in two runs of changes is reached from
    /// the first in one.
    pub proof fn lemma_advanced_trans(s0: Sudoku, s1: Sudoku, s2: Sudoku)
        requires
            s1.advanced_from(s0),
            s2.advanced_from(s1),
        ensures
            s2.advanced_from(s0),
    {
    }
}

/// The full candidate set `{1, ..., SIZE}`.
pub fn candidate_set() -> (r: HashSet<Value>)
    ensures
        r@ == Set::new(|v: u32| 1 <= v <= 9),
{
    broadcast use vstd::std_specs::hash::group_hash_axioms;

    let mut set: HashSet<Value> = HashSet::new();
    let mut i: u32 = 0;
    while i < SIZE
        invariant
            i <= 9,
            set@ == Set::new(|v: u32| 1 <= v <= i),
        decreases 9 - i,
    {
        set.insert(i + 1);
        i += 1;
        assert(set@ =~= Set::new(|v: u32| 1 <= v <= i));
    }
    set
}

/// The first `n` rows of a grid string, each followed by a line break.
pub open spec fn grid_lines(s: Seq<char>, n: int) -> Seq<char>
    decreases n,
{
    if n <= 0 {
        Seq::empty()
    } else {
        grid_lines(s, n - 1) + s.subrange(9 * (n - 1), 9 * n) + seq!['\n']
    }
}

/// Lays a grid string out as nine lines of nine characters.
pub fn format_string(source: &str) -> (r: String)
    requires
        source@.len() >= 81,
    ensures
        r@ == grid_lines(source@, 9),
{
    let newline = "\n";
    proof {
        reveal_strlit("\n");
    }
    let mut string = String::new();
    let mut i: usize = 0;
    while i < 9
        invariant
            source@.len() >= 81,
            newline@ == seq!['\n'],
            i <= 9,
            string@ == grid_lines(source@, i as int),
        decreases 9 - i,
    {
        string.append(source.substring_char(9 * i, 9 * (i + 1)));
        string.append(newline);
        i += 1;
    }
    string
}

impl Sudoku {
    /// The complete grid `sol` is still possible: every cell allows its digit.
    pub open spec fn admits(self, sol: Seq<u32>) -> bool {
        &&& sol.len() == 81
        &&& forall|i: int| 0 <= i < 81 ==> #[trigger] self.allows(i, sol[i])
    }

    /// A resolved cell of a state that admits `sol` holds the digit of `sol`.
    pub proof fn lemma_admitted_values(self, sol: Seq<u32>)
        requires
            self.wf(),
            self.admits(sol),
        ensures
            forall|i: int| 0 <= i < 81 && #[trigger] self.value(i) != 0 ==> self.value(i) == sol[i],
    {
        assert forall|i: int| 0 <= i < 81 && #[trigger] self.value(i) != 0 implies self.value(i) == sol[i] by {
            self.lemma_cell(i);
            assert(self.allows(i, sol[i]));
        }
    }

    /// Removing a value other than the digit of `sol` keeps `sol` admitted.
    pub proof fn lemma_eliminate_admits(s0: Sudoku, s1: Sudoku, i: int, v: u32, sol: Seq<u32>)
        requires
            s0.wf(),
            0 <= i < 81,
            s1.eliminated(s0, i, v),
            s0.admits(sol),
            sol[i] != v,
        ensures
            s1.admits(sol),
    {
        if s0.value(i) == 0 && s0.allows(i, v) {
            assert forall|j: int| 0 <= j < 81 implies #[trigger] s1.allows(j, sol[j]) by {
                assert(s0.allows(j, sol[j]));
                assert(s1.has_candidate(j, sol[j] as int) == s0.has_candidate(j, sol[j] as int));
            }
        }
    }

    /// Filling a cell with the digit of `sol` keeps `sol` admitted.
    pub proof fn lemma_fill_admits(s0: Sudoku, s1: Sudoku, i: int, v: u32, sol: Seq<u32>)
        requires
            s0.wf(),
            0 <= i < 81,
            s1.filled(s0, i, v),
            s0.admits(sol),
            s0.value(i) == 0 ==> sol[i] == v,
        ensures
            s1.admits(sol),
    {
        if s0.value(i) == 0 {
            s0.lemma_cell(i);
            assert forall|j: int| 0 <= j < 81 implies #[trigger] s1.allows(j, sol[j]) by {
                assert(s0.allows(j, sol[j]));
                assert(s1.has_candidate(j, sol[j] as int) == if j == i {
                    sol[j] == v
                } else {
                    s0.has_candidate(j, sol[j] as int)
                });
            }
        }
    }
}

impl Sudoku {
    /// A state built from a puzzle admits every complete grid of digits that
    /// agrees with the puzzle's givens.
    pub proof fn lemma_built_admits(self, puzzle: SudokuPuzzle, sol: Seq<u32>)
        requires
            puzzle.wf(),
            self.built_from(puzzle),
            sol.len() == 81,
            forall|i: int| 0 <= i < 81 ==> 1 <= #[trigger] sol[i] <= 9,
            forall|i: int| 0 <= i < 81 && #[trigger] puzzle.givens()[i] != 0 ==> puzzle.givens()[i] == sol[i],
        ensures
            self.admits(sol),
    {
        assert forall|i: int| 0 <= i < 81 implies #[trigger] self.allows(i, sol[i]) by {
            self.lemma_cell(i);
            assert(self.has_candidate(i, sol[i] as int) || puzzle.givens()[i] != 0);
        }
    }

    /// A complete state that admits `sol` shows exactly `sol`.
    pub proof fn lemma_complete_shows(self, sol: Seq<u32>)
        requires
            self.wf(),
            self.admits(sol),
            self.remaining() == 0,
        ensures
            self.values() == sol,
    {
        self.lemma_admitted_values(sol);
        self.lemma_cell(0);
        lemma_count_zero(self.open_flags());
        assert forall|i: int| 0 <= i < 81 implies self.values()[i] == sol[i] by {
            assert(!self.open_flags()[i]);
        }
        assert(self.values() =~= sol);
    }
}

impl Sudoku {
    /// A cell with the same givens and the same candidates shows the same value
    /// and allows the same values.
    pub proof fn lemma_same_candidates(s0: Sudoku, s1: Sudoku, j: int)
        requires
            s0.wf(),
            s1.wf(),
            0 <= j < 81,
            s1.givens() == s0.givens(),
            forall|w: int| #[trigger] s1.has_candidate(j, w) == s0.has_candidate(j, w),
        ensures
            s1.value(j) == s0.value(j),
            forall|v: u32| #[trigger] s1.allows(j, v) == s0.allows(j, v),
    {
        assert forall|q: int| 0 <= q < 9 implies s1.window(j)[q] == s0.window(j)[q] by {
            assert(s1.has_candidate(j, q + 1) == s0.has_candidate(j, q + 1));
        }
        assert(s1.window(j) =~= s0.window(j));
    }
}

} // verus!
