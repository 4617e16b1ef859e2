//! The deduction engine: three rules applied to every row, column and box
//! until the grid is complete or a whole sweep changes nothing.
use vstd::prelude::*;
use crate::count::{count_true, last_true, lemma_count_all, lemma_count_mono, lemma_count_positive, lemma_count_zero, lemma_count_bound, lemma_count_one, lemma_count_update};
use crate::sudoku::{index, Index, Point, Sudoku, SudokuPuzzle, Value, ORDER, SIZE};

verus! {

/// The cells of box `n`, row by row.
pub open spec fn box_group(n: int) -> Seq<int> {
    Seq::new(9, |k: int| 9 * (3 * (n / 3) + k / 3) + 3 * (n % 3) + k % 3)
}

/// The cells of row `y`.
pub open spec fn row_group(y: int) -> Seq<int> {
    Seq::new(9, |k: int| 9 * y + k)
}

/// The cells of column `x`.
pub open spec fn col_group(x: int) -> Seq<int> {
    Seq::new(9, |k: int| 9 * k + x)
}

/// Group `n` of family `f`: 0 for boxes, 1 for rows, 2 for columns.
pub open spec fn group(f: int, n: int) -> Seq<int> {
    if f == 0 {
        box_group(n)
    } else if f == 1 {
        row_group(n)
    } else {
        col_group(n)
    }
}

pub open spec fn valid_group(g: Seq<int>) -> bool {
    &&& g.len() == 9
    &&& forall|k: int| 0 <= k < 9 ==> 0 <= #[trigger] g[k] < 81
}

/// Elimination has nothing to do in `g`: no unresolved cell of `g` still
/// allows a value that a resolved cell of `g` holds.
pub open spec fn clean_idle(s: Sudoku, g: Seq<int>) -> bool {
    forall|a: int, b: int|
        0 <= a < 9 && 0 <= b < 9 && #[trigger] s.value(g[a]) == 0 && #[trigger] s.value(g[b]) != 0
            ==> !s.allows(g[a], s.value(g[b]))
}

/// Some resolved cell of `g` holds `w`.
pub open spec fn held_in(s: Sudoku, g: Seq<int>, w: int) -> bool {
    exists|b: int| 0 <= b < 9 && s.value(g[b]) != 0 && #[trigger] s.value(g[b]) == w
}

/// What a pass of elimination did to `s1`, from `s0`, in `g`: cells that were
/// resolved or lie outside `g` are untouched; an unresolved cell of `g` keeps
/// the candidates that no resolved cell of `g` holds, and loses the others
/// unless it got resolved on the way.
pub open spec fn cleaned(s1: Sudoku, s0: Sudoku, g: Seq<int>) -> bool {
    &&& forall|j: int, w: int| 0 <= j < 81 && #[trigger] s1.has_candidate(j, w) ==> s0.has_candidate(j, w)
    &&& forall|j: int, w: int|
        0 <= j < 81 && (s0.value(j) != 0 || !g.contains(j)) ==> #[trigger] s1.has_candidate(j, w)
            == s0.has_candidate(j, w)
    &&& forall|a: int, w: int|
        0 <= a < 9 && s0.value(g[a]) == 0 ==> {
            &&& #[trigger] s1.has_candidate(g[a], w) ==> s0.has_candidate(g[a], w)
            &&& s0.has_candidate(g[a], w) && !held_in(s0, g, w) ==> s1.has_candidate(g[a], w)
            &&& s1.has_candidate(g[a], w) && held_in(s0, g, w) ==> s1.value(g[a]) != 0
        }
}

/// Per cell of `g`, whether it is unresolved.
pub open spec fn open_in(s: Sudoku, g: Seq<int>) -> Seq<bool> {
    Seq::new(9, |k: int| s.value(g[k]) == 0)
}

/// Per value `1..=9` (at position `value - 1`), whether no cell of `g` holds it.
pub open spec fn unused_in(s: Sudoku, g: Seq<int>) -> Seq<bool> {
    Seq::new(9, |u: int| forall|k: int| 0 <= k < 9 ==> #[trigger] s.value(g[k]) != u + 1)
}

/// The single-empty-cell rule fires in `g`: exactly one cell is unresolved
/// and exactly one value is missing.
pub open spec fn fill_applies(s: Sudoku, g: Seq<int>) -> bool {
    count_true(open_in(s, g)) == 1 && count_true(unused_in(s, g)) == 1
}

/// What a pass of hidden-single fills did to `s1`, from `s0`, in `g`: cells
/// that were resolved or lie outside `g` are untouched; an unresolved cell of
/// `g` either is untouched or got resolved to a value it allowed, which is
/// then its only candidate.
pub open spec fn placed(s1: Sudoku, s0: Sudoku, g: Seq<int>) -> bool {
    &&& forall|j: int, w: int|
        0 <= j < 81 && (s0.value(j) != 0 || !g.contains(j)) ==> #[trigger] s1.has_candidate(j, w)
            == s0.has_candidate(j, w)
    &&& forall|a: int|
        0 <= a < 9 && s0.value(g[a]) == 0 && #[trigger] s1.value(g[a]) != 0 ==> {
            &&& s0.allows(g[a], s1.value(g[a]))
            &&& forall|w: int| #[trigger] s1.has_candidate(g[a], w) == (w == s1.value(g[a]))
        }
    &&& forall|a: int, w: int|
        0 <= a < 9 && s0.value(g[a]) == 0 && s1.value(g[a]) == 0 ==> #[trigger] s1.has_candidate(g[a], w)
            == s0.has_candidate(g[a], w)
}

/// From `s0` to `s1` only unresolved cells changed, each to a resolved cell
/// whose only candidate is its value.
pub open spec fn resolved_only(s1: Sudoku, s0: Sudoku) -> bool {
    &&& forall|j: int, w: int|
        0 <= j < 81 && (s0.value(j) != 0 || s1.value(j) == 0) ==> #[trigger] s1.has_candidate(j, w)
            == s0.has_candidate(j, w)
    &&& forall|j: int|
        0 <= j < 81 && s0.value(j) == 0 && #[trigger] s1.value(j) != 0 ==> forall|w: int|
            #[trigger] s1.has_candidate(j, w) == (w == s1.value(j))
}

/// Every cell resolved from `s0` to `s1` got a value that it allowed in `s0`.
pub open spec fn resolved_from_candidates(s1: Sudoku, s0: Sudoku) -> bool {
    forall|j: int| 0 <= j < 81 && s0.value(j) == 0 && #[trigger] s1.value(j) != 0 ==> s0.allows(j, s1.value(j))
}

/// A pass of hidden-single fills only resolves cells, each to a value it allowed.
proof fn lemma_placed_resolved(s1: Sudoku, s0: Sudoku, g: Seq<int>)
    requires
        s0.wf(),
        valid_group(g),
        s1.advanced_from(s0),
        placed(s1, s0, g),
    ensures
        resolved_only(s1, s0),
        resolved_from_candidates(s1, s0),
{
    assert forall|j: int| 0 <= j < 81 && s0.value(j) == 0 implies (s1.value(j) == 0 ==> forall|w: int|
        #[trigger] s1.has_candidate(j, w) == s0.has_candidate(j, w)) && (#[trigger] s1.value(j) != 0 ==> (
    forall|w: int| #[trigger] s1.has_candidate(j, w) == (w == s1.value(j))) && s0.allows(j, s1.value(j))) by {
        if g.contains(j) {
            let a = choose|a: int| 0 <= a < g.len() && g[a] == j;
            assert(s1.value(g[a]) == s1.value(j));
        } else {
            assert forall|w: int| #[trigger] s1.has_candidate(j, w) == s0.has_candidate(j, w) by {}
            Sudoku::lemma_same_candidates(s0, s1, j);
        }
    }
}

/// One application of the single-empty-cell rule only resolves a cell.
proof fn lemma_resolved_step_fill(s0: Sudoku, s1: Sudoku, f: int, n: u32)
    requires
        0 <= f < 3,
        n < 9,
        valid_group(group(f, n as int)),
        s1.advanced_from(s0),
        !fill_applies(s0, group(f, n as int)) ==> s1 == s0,
        fill_applies(s0, group(f, n as int)) ==> s1.filled(
            s0,
            open_cell(s0, group(f, n as int)),
            missing_value(s0, group(f, n as int)),
        ),
    ensures
        resolved_only(s1, s0),
{
    let g = group(f, n as int);
    if fill_applies(s0, g) {
        let u = unused_in(s0, g);
        lemma_count_zero(u);
        let q = choose|q: int| 0 <= q < u.len() && u[q];
        lemma_count_one(u, q);
    }
}

/// Runs of changes that only resolve cells compose.
proof fn lemma_resolved_trans(s0: Sudoku, s1: Sudoku, s2: Sudoku)
    requires
        s0.wf(),
        s1.advanced_from(s0),
        s2.advanced_from(s1),
        resolved_only(s1, s0),
        resolved_only(s2, s1),
    ensures
        resolved_only(s2, s0),
        resolved_from_candidates(s1, s0) && resolved_from_candidates(s2, s1) ==> resolved_from_candidates(s2, s0),
{
    assert forall|j: int| 0 <= j < 81 && s0.value(j) == 0 && s1.value(j) == 0 implies forall|v: u32|
        #[trigger] s1.allows(j, v) == s0.allows(j, v) by {
        assert forall|w: int| #[trigger] s1.has_candidate(j, w) == s0.has_candidate(j, w) by {}
        Sudoku::lemma_same_candidates(s0, s1, j);
    }
}

/// Cell `g[k]` is the only cell of `g` that allows `v`.
pub open spec fn sole_acceptor(s: Sudoku, g: Seq<int>, v: u32, k: int) -> bool {
    &&& 1 <= v <= 9
    &&& 0 <= k < 9
    &&& count_true(acceptors(s, g, v)) == 1
    &&& s.allows(g[k], v)
}

/// Per cell of `g`, whether it allows `v`.
pub open spec fn acceptors(s: Sudoku, g: Seq<int>, v: u32) -> Seq<bool> {
    Seq::new(9, |k: int| s.allows(g[k], v))
}

/// The hidden-single rule has nothing to do in `g`: wherever a value has a
/// single cell of `g` that allows it, that cell is already resolved.
pub open spec fn value_fill_idle(s: Sudoku, g: Seq<int>) -> bool {
    forall|v: u32|
        1 <= v <= 9 && #[trigger] count_true(acceptors(s, g, v)) == 1 ==> forall|k: int|
            0 <= k < 9 && s.allows(g[k], v) ==> s.value(g[k]) != 0
}

/// No rule can change the state: a sweep over all groups would deduce nothing.
pub open spec fn stalled(s: Sudoku) -> bool {
    forall|f: int, n: int|
        0 <= f < 3 && 0 <= n < 9 ==> {
            &&& clean_idle(s, #[trigger] group(f, n))
            &&& !fill_applies(s, group(f, n))
            &&& value_fill_idle(s, group(f, n))
        }
}

proof fn lemma_box_cell(n: int, k: int)
    requires
        0 <= n < 9,
        0 <= k < 9,
    ensures
        0 <= box_group(n)[k] < 81,
        box_group(n)[k] / 27 == n / 3,
        (box_group(n)[k] % 9) / 3 == n % 3,
        (box_group(n)[k] / 9) % 3 == k / 3,
        box_group(n)[k] % 3 == k % 3,
{
    let (p, q, r, t) = (n / 3, n % 3, k / 3, k % 3);
    let c = box_group(n)[k];
    assert(c == 27 * p + 9 * r + 3 * q + t);
    assert(0 <= 9 * r + 3 * q + t < 27);
    assert(c / 27 == p);
    assert(c % 9 == 3 * q + t);
    assert(c / 9 == 3 * p + r);
}

proof fn lemma_box_groups()
    ensures
        forall|n: int| 0 <= n < 9 ==> valid_group(#[trigger] box_group(n)),
        forall|n: int| 0 <= n < 9 ==> (#[trigger] box_group(n)).no_duplicates(),
{
    assert forall|n: int| 0 <= n < 9 implies valid_group(#[trigger] box_group(n))
        && box_group(n).no_duplicates() by {
        assert forall|k: int| 0 <= k < 9 implies 0 <= #[trigger] box_group(n)[k] < 81 by {
            lemma_box_cell(n, k);
        }
        assert forall|a: int, b: int| 0 <= a < 9 && 0 <= b < 9 && a != b implies box_group(n)[a]
            != box_group(n)[b] by {
            lemma_box_cell(n, a);
            lemma_box_cell(n, b);
        }
    }
}

/// `sol` meets the rules in `g`: its cells there hold distinct digits, and
/// every digit `1..=9` occurs among them.
pub open spec fn group_solved(sol: Seq<u32>, g: Seq<int>) -> bool {
    &&& forall|a: int, b: int|
        0 <= a < 9 && 0 <= b < 9 && a != b ==> #[trigger] sol[g[a]] != #[trigger] sol[g[b]]
    &&& forall|v: u32| 1 <= v <= 9 ==> #[trigger] occurs_in(sol, g, v)
}

/// Some cell of `g` holds `v` in `sol`.
pub open spec fn occurs_in(sol: Seq<u32>, g: Seq<int>, v: u32) -> bool {
    exists|k: int| 0 <= k < 9 && #[trigger] sol[g[k]] == v
}

/// `sol` holds a digit `1..=9` for each of the 81 cells.
pub open spec fn digit_grid(sol: Seq<u32>) -> bool {
    &&& sol.len() == 81
    &&& forall|i: int| 0 <= i < 81 ==> 1 <= #[trigger] sol[i] <= 9
}

/// `sol` is a complete grid that obeys the rules in every row, column and box.
pub open spec fn is_solution(sol: Seq<u32>) -> bool {
    &&& digit_grid(sol)
    &&& forall|f: int, n: int| 0 <= f < 3 && 0 <= n < 9 ==> group_solved(sol, #[trigger] group(f, n))
}

/// The single-empty-cell rule's cell: the open cell of `g` (the last one).
pub open spec fn open_cell(s: Sudoku, g: Seq<int>) -> int {
    g[last_true(open_in(s, g))]
}

/// The single-empty-cell rule's value: the value missing from `g` (the last one).
pub open spec fn missing_value(s: Sudoku, g: Seq<int>) -> u32 {
    (last_true(unused_in(s, g)) + 1) as u32
}

/// Every cell lies in exactly one box, one row and one column, and every group
/// holds nine distinct cells of the grid.
#[verifier::rlimit(40)]
pub proof fn lemma_groups(c: int)
    requires
        0 <= c < 81,
    ensures
        forall|n: int|
            0 <= n < 9 ==> (#[trigger] box_group(n).contains(c) <==> n == 3 * (c / 27) + (c % 9) / 3),
        forall|y: int| 0 <= y < 9 ==> (#[trigger] row_group(y).contains(c) <==> y == c / 9),
        forall|x: int| 0 <= x < 9 ==> (#[trigger] col_group(x).contains(c) <==> x == c % 9),
        forall|f: int, n: int| 0 <= f < 3 && 0 <= n < 9 ==> valid_group(#[trigger] group(f, n)),
        forall|f: int, n: int| 0 <= f < 3 && 0 <= n < 9 ==> (#[trigger] group(f, n)).no_duplicates(),
{
    lemma_box_groups();
    let b = 3 * (c / 27) + (c % 9) / 3;
    let kb = 3 * ((c / 9) % 3) + c % 3;
    lemma_box_cell(b, kb);
    assert(box_group(b)[kb] == c);
    assert forall|n: int| 0 <= n < 9 && #[trigger] box_group(n).contains(c) implies n == b by {
        let k = choose|k: int| 0 <= k < 9 && box_group(n)[k] == c;
        lemma_box_cell(n, k);
    }
    assert(row_group(c / 9)[c % 9] == c);
    assert(col_group(c % 9)[c / 9] == c);
    assert forall|y: int| 0 <= y < 9 && #[trigger] row_group(y).contains(c) implies y == c / 9 by {
        let k = choose|k: int| 0 <= k < 9 && row_group(y)[k] == c;
    }
    assert forall|x: int| 0 <= x < 9 && #[trigger] col_group(x).contains(c) implies x == c % 9 by {
        let k = choose|k: int| 0 <= k < 9 && col_group(x)[k] == c;
    }
    assert forall|f: int, n: int| 0 <= f < 3 && 0 <= n < 9 implies valid_group(#[trigger] group(f, n))
        && group(f, n).no_duplicates() by {
        if f == 0 {
            assert(box_group(n).no_duplicates());
        }
    }
}

/// The cells that a list of indexes names.
pub open spec fn cells_of(indexes: Seq<Index>) -> Seq<int> {
    Seq::new(indexes.len(), |k: int| indexes[k] as int)
}

fn box_indexes(n: u32) -> (r: Vec<Index>)
    requires
        n < 9,
    ensures
        cells_of(r@) == box_group(n as int),
{
    let x0 = ORDER * (n % ORDER);
    let y0 = ORDER * (n / ORDER);
    let mut indexes: Vec<Index> = Vec::new();
    let mut y: u32 = y0;
    while y < y0 + ORDER
        invariant
            n < 9,
            x0 == 3 * (n % 3),
            y0 == 3 * (n / 3),
            y0 <= y <= y0 + 3,
            indexes@.len() == 3 * (y - y0),
            forall|k: int| 0 <= k < indexes@.len() ==> #[trigger] indexes@[k] as int == box_group(n as int)[k],
        decreases y0 + 3 - y,
    {
        let mut x: u32 = x0;
        while x < x0 + ORDER
            invariant
                n < 9,
                x0 == 3 * (n % 3),
                y0 == 3 * (n / 3),
                y0 <= y < y0 + 3,
                x0 <= x <= x0 + 3,
                indexes@.len() == 3 * (y - y0) + (x - x0),
                forall|k: int|
                    0 <= k < indexes@.len() ==> #[trigger] indexes@[k] as int == box_group(n as int)[k],
            decreases x0 + 3 - x,
        {
            let i = index(&Point::new(x, y));
            proof {
                let k = 3 * (y - y0) + (x - x0);
                assert(k / 3 == y - y0 && k % 3 == x - x0);
            }
            indexes.push(i);
            x += 1;
        }
        y += 1;
    }
    assert(cells_of(indexes@) =~= box_group(n as int));
    indexes
}

fn row_indexes(y: u32) -> (r: Vec<Index>)
    requires
        y < 9,
    ensures
        cells_of(r@) == row_group(y as int),
{
    let mut indexes: Vec<Index> = Vec::new();
    let mut i: u32 = 0;
    while i < SIZE
        invariant
            y < 9,
            i <= 9,
            indexes@.len() == i,
            forall|k: int| 0 <= k < i ==> #[trigger] indexes@[k] as int == row_group(y as int)[k],
        decreases 9 - i,
    {
        indexes.push(index(&Point::new(i, y)));
        i += 1;
    }
    assert(cells_of(indexes@) =~= row_group(y as int));
    indexes
}

fn col_indexes(x: u32) -> (r: Vec<Index>)
    requires
        x < 9,
    ensures
        cells_of(r@) == col_group(x as int),
{
    let mut indexes: Vec<Index> = Vec::new();
    let mut i: u32 = 0;
    while i < SIZE
        invariant
            x < 9,
            i <= 9,
            indexes@.len() == i,
            forall|k: int| 0 <= k < i ==> #[trigger] indexes@[k] as int == col_group(x as int)[k],
        decreases 9 - i,
    {
        indexes.push(index(&Point::new(x, i)));
        i += 1;
    }
    assert(cells_of(indexes@) =~= col_group(x as int));
    indexes
}

/// The effective values of the cells of a group.
fn group_values(puzzle: &Sudoku, indexes: &Vec<Index>) -> (r: Vec<Value>)
    requires
        puzzle.wf(),
        valid_group(cells_of(indexes@)),
    ensures
        r@.len() == 9,
        forall|k: int| 0 <= k < 9 ==> #[trigger] r@[k] == puzzle.value(cells_of(indexes@)[k]),
{
    let ghost g = cells_of(indexes@);
    let mut vals: Vec<Value> = Vec::new();
    let mut k: usize = 0;
    while k < 9
        invariant
            puzzle.wf(),
            valid_group(g),
            g == cells_of(indexes@),
            k <= 9,
            vals@.len() == k,
            forall|q: int| 0 <= q < k ==> #[trigger] vals@[q] == puzzle.value(g[q]),
        decreases 9 - k,
    {
        assert(0 <= g[k as int] < 81);
        vals.push(puzzle.view(indexes[k]));
        k += 1;
    }
    vals
}

/// Elimination by known values: every value resolved in the group is removed
/// from the candidates of every cell of the group that is unresolved.
fn clean(puzzle: &mut Sudoku, indexes: &Vec<Index>)
    requires
        old(puzzle).wf(),
        valid_group(cells_of(indexes@)),
    ensures
        final(puzzle).advanced_from(*old(puzzle)),
        final(puzzle).remaining() == old(puzzle).remaining() ==> clean_idle(
            *final(puzzle),
            cells_of(indexes@),
        ),
        clean_idle(*old(puzzle), cells_of(indexes@)) ==> *final(puzzle) == *old(puzzle),
        cleaned(*final(puzzle), *old(puzzle), cells_of(indexes@)),
        forall|sol: Seq<u32>|
            digit_grid(sol) && group_solved(sol, cells_of(indexes@)) && #[trigger] old(puzzle).admits(sol)
                ==> final(puzzle).admits(sol),
{
    let ghost start = *puzzle;
    let ghost g = cells_of(indexes@);
    let vals = group_values(puzzle, indexes);
    let mut a: usize = 0;
    while a < 9
        invariant
            valid_group(g),
            g == cells_of(indexes@),
            vals@.len() == 9,
            forall|k: int| 0 <= k < 9 ==> #[trigger] vals@[k] == start.value(g[k]),
            a <= 9,
            puzzle.advanced_from(start),
            puzzle.remaining() == start.remaining() ==> forall|a2: int, b2: int|
                0 <= a2 < a && 0 <= b2 < 9 && #[trigger] start.value(g[a2]) == 0 && #[trigger] start.value(
                    g[b2],
                ) != 0 ==> !puzzle.allows(g[a2], start.value(g[b2])),
            clean_idle(start, g) ==> *puzzle == start,
            forall|sol: Seq<u32>|
                digit_grid(sol) && group_solved(sol, g) && #[trigger] start.admits(sol) ==> puzzle.admits(sol),
            forall|j: int, w: int|
                0 <= j < 81 && (start.value(j) != 0 || !g.contains(j)) ==> #[trigger] puzzle.has_candidate(j, w)
                    == start.has_candidate(j, w),
            forall|a2: int, w: int|
                0 <= a2 < 9 && start.value(g[a2]) == 0 ==> {
                    &&& #[trigger] puzzle.has_candidate(g[a2], w) ==> start.has_candidate(g[a2], w)
                    &&& start.has_candidate(g[a2], w) && !held_in(start, g, w) ==> puzzle.has_candidate(g[a2], w)
                },
            forall|a2: int, b2: int|
                0 <= a2 < a && 0 <= b2 < 9 && #[trigger] start.value(g[a2]) == 0 && #[trigger] start.value(g[b2]) != 0
                    ==> !puzzle.has_candidate(g[a2], start.value(g[b2]) as int) || puzzle.value(g[a2]) != 0,
        decreases 9 - a,
    {
        let mut b: usize = 0;
        while b < 9
            invariant
                valid_group(g),
                g == cells_of(indexes@),
                vals@.len() == 9,
                forall|k: int| 0 <= k < 9 ==> #[trigger] vals@[k] == start.value(g[k]),
                a < 9,
                b <= 9,
                puzzle.advanced_from(start),
                puzzle.remaining() == start.remaining() ==> forall|a2: int, b2: int|
                    0 <= b2 < 9 && (0 <= a2 < a || (a2 == a && b2 < b)) && #[trigger] start.value(g[a2]) == 0
                        && #[trigger] start.value(g[b2]) != 0 ==> !puzzle.allows(
                        g[a2],
                        start.value(g[b2]),
                    ),
                clean_idle(start, g) ==> *puzzle == start,
                forall|sol: Seq<u32>|
                    digit_grid(sol) && group_solved(sol, g) && #[trigger] start.admits(sol) ==> puzzle.admits(
                        sol,
                    ),
            forall|j: int, w: int|
                0 <= j < 81 && (start.value(j) != 0 || !g.contains(j)) ==> #[trigger] puzzle.has_candidate(j, w)
                    == start.has_candidate(j, w),
            forall|a2: int, w: int|
                0 <= a2 < 9 && start.value(g[a2]) == 0 ==> {
                    &&& #[trigger] puzzle.has_candidate(g[a2], w) ==> start.has_candidate(g[a2], w)
                    &&& start.has_candidate(g[a2], w) && !held_in(start, g, w) ==> puzzle.has_candidate(g[a2], w)
                },
            forall|a2: int, b2: int|
                0 <= b2 < 9 && (0 <= a2 < a || (a2 == a && b2 < b)) && #[trigger] start.value(g[a2]) == 0 && #[trigger] start.value(g[b2]) != 0
                    ==> !puzzle.has_candidate(g[a2], start.value(g[b2]) as int) || puzzle.value(g[a2]) != 0,
            decreases 9 - b,
        {
            if vals[a] == 0 && vals[b] != 0 {
                let ghost before = *puzzle;
                assert(0 <= g[a as int] < 81);
                puzzle.eliminate(indexes[a], vals[b]);
                proof {
                    Sudoku::lemma_advanced_trans(start, before, *puzzle);
                    assert forall|sol: Seq<u32>|
                        digit_grid(sol) && group_solved(sol, g) && #[trigger] start.admits(sol) implies puzzle.admits(
                        sol,
                    ) by {
                        before.lemma_admitted_values(sol);
                        assert(before.value(g[b as int]) == start.value(g[b as int]));
                        assert(sol[g[a as int]] != sol[g[b as int]]);
                        Sudoku::lemma_eliminate_admits(before, *puzzle, g[a as int], vals[b as int], sol);
                    }
                    assert(before.value(g[a as int]) == 0 ==> puzzle.value(g[a as int]) != 0
                        || !puzzle.has_candidate(g[a as int], vals[b as int] as int));
                    assert(held_in(start, g, vals[b as int] as int));
                    if puzzle.remaining() == start.remaining() {
                        puzzle.lemma_cell(g[a as int]);
                        assert(!puzzle.allows(g[a as int], start.value(g[b as int])));
                    }
                }
            }
            b += 1;
        }
        a += 1;
    }
    proof {
        assert forall|j: int, w: int| 0 <= j < 81 && #[trigger] puzzle.has_candidate(j, w) implies start.has_candidate(
            j,
            w,
        ) by {
            if start.value(j) == 0 && g.contains(j) {
                let a2 = choose|a2: int| 0 <= a2 < g.len() && g[a2] == j;
                assert(puzzle.has_candidate(g[a2], w));
            }
        }
        assert forall|a2: int, w: int| 0 <= a2 < 9 && start.value(g[a2]) == 0 && #[trigger] puzzle.has_candidate(
            g[a2],
            w,
        ) && held_in(start, g, w) implies puzzle.value(g[a2]) != 0 by {
            let b2 = choose|b2: int| 0 <= b2 < 9 && start.value(g[b2]) != 0 && #[trigger] start.value(g[b2]) == w;
        }
        if puzzle.remaining() == start.remaining() {
            assert forall|a2: int, b2: int|
                0 <= a2 < 9 && 0 <= b2 < 9 && #[trigger] puzzle.value(g[a2]) == 0 && #[trigger] puzzle.value(
                    g[b2],
                ) != 0 implies !puzzle.allows(g[a2], puzzle.value(g[b2])) by {
                assert(start.value(g[a2]) == puzzle.value(g[a2]));
                assert(start.value(g[b2]) == puzzle.value(g[b2]));
            }
        }
    }
}

/// Unresolved cells stay unresolved and candidates only shrink while nothing
/// gets resolved, so elimination stays idle where it was.
proof fn lemma_clean_idle_kept(s1: Sudoku, s2: Sudoku, g: Seq<int>)
    requires
        valid_group(g),
        s2.advanced_from(s1),
        s2.remaining() == s1.remaining(),
        clean_idle(s1, g),
    ensures
        clean_idle(s2, g),
{
    assert forall|a: int, b: int|
        0 <= a < 9 && 0 <= b < 9 && #[trigger] s2.value(g[a]) == 0 && #[trigger] s2.value(g[b]) != 0
            implies !s2.allows(g[a], s2.value(g[b])) by {
        assert(s1.value(g[a]) == s2.value(g[a]));
        assert(s1.value(g[b]) == s2.value(g[b]));
    }
}

/// Single empty cell: when exactly one cell of the group is unresolved and
/// exactly one value is missing from the group, that cell gets that value.
fn fill(puzzle: &mut Sudoku, indexes: &Vec<Index>)
    requires
        old(puzzle).wf(),
        valid_group(cells_of(indexes@)),
    ensures
        final(puzzle).advanced_from(*old(puzzle)),
        fill_applies(*old(puzzle), cells_of(indexes@)) ==> final(puzzle).remaining() < old(
            puzzle,
        ).remaining(),
        !fill_applies(*old(puzzle), cells_of(indexes@)) ==> *final(puzzle) == *old(puzzle),
        fill_applies(*old(puzzle), cells_of(indexes@)) ==> final(puzzle).filled(
            *old(puzzle),
            open_cell(*old(puzzle), cells_of(indexes@)),
            missing_value(*old(puzzle), cells_of(indexes@)),
        ),
        forall|sol: Seq<u32>|
            digit_grid(sol) && group_solved(sol, cells_of(indexes@)) && #[trigger] old(puzzle).admits(sol)
                ==> final(puzzle).admits(sol),
{
    let ghost start = *puzzle;
    let ghost g = cells_of(indexes@);
    let ghost opens = open_in(start, g);
    let ghost unused = unused_in(start, g);
    let vals = group_values(puzzle, indexes);
    let mut empty_count: u32 = 0;
    let mut target: usize = 0;
    let mut k: usize = 0;
    while k < 9
        invariant
            valid_group(g),
            g == cells_of(indexes@),
            vals@.len() == 9,
            forall|q: int| 0 <= q < 9 ==> #[trigger] vals@[q] == start.value(g[q]),
            opens == open_in(start, g),
            k <= 9,
            empty_count == count_true(opens.subrange(0, k as int)),
            empty_count >= 1 ==> target < k && vals@[target as int] == 0,
        decreases 9 - k,
    {
        proof {
            assert(opens.subrange(0, k + 1).drop_last() =~= opens.subrange(0, k as int));
            lemma_count_bound(opens.subrange(0, k as int));
        }
        if vals[k] == 0 {
            empty_count += 1;
            target = k;
        }
        k += 1;
    }
    assert(opens.subrange(0, 9) =~= opens);
    let mut missing: u32 = 0;
    let mut value: u32 = 0;
    let mut u: u32 = 0;
    while u < SIZE
        invariant
            valid_group(g),
            g == cells_of(indexes@),
            vals@.len() == 9,
            forall|q: int| 0 <= q < 9 ==> #[trigger] vals@[q] == start.value(g[q]),
            unused == unused_in(start, g),
            u <= 9,
            missing == count_true(unused.subrange(0, u as int)),
            missing >= 1 ==> 1 <= value <= u && unused[value - 1],
        decreases 9 - u,
    {
        let mut found = false;
        let mut q: usize = 0;
        while q < 9
            invariant
                vals@.len() == 9,
                u < 9,
                q <= 9,
                found == exists|p: int| 0 <= p < q && #[trigger] vals@[p] == u + 1,
            decreases 9 - q,
        {
            if vals[q] == u + 1 {
                found = true;
            }
            q += 1;
        }
        proof {
            assert(unused.subrange(0, u + 1).drop_last() =~= unused.subrange(0, u as int));
            lemma_count_bound(unused.subrange(0, u as int));
            if found {
                let p = choose|p: int| 0 <= p < 9 && #[trigger] vals@[p] == u + 1;
                assert(start.value(g[p]) == u + 1);
            } else {
                assert forall|p: int| 0 <= p < 9 implies #[trigger] start.value(g[p]) != u + 1 by {
                    assert(vals@[p] == start.value(g[p]));
                }
            }
            assert(unused[u as int] == !found);
        }
        if !found {
            missing += 1;
            value = u + 1;
        }
        u += 1;
    }
    assert(unused.subrange(0, 9) =~= unused);
    if empty_count == 1 && missing == 1 {
        assert(0 <= g[target as int] < 81);
        proof {
            lemma_count_one(opens, target as int);
            lemma_count_one(unused, value - 1);
        }
        puzzle.fill(indexes[target], value);
        proof {
            assert forall|sol: Seq<u32>|
                digit_grid(sol) && group_solved(sol, g) && #[trigger] start.admits(sol) implies puzzle.admits(sol) by {
                start.lemma_admitted_values(sol);
                let d = sol[g[target as int]];
                assert forall|q: int| 0 <= q < 9 implies #[trigger] start.value(g[q]) != d by {
                    if q != target {
                        assert(!opens[q]);
                        assert(sol[g[q]] != sol[g[target as int]]);
                    }
                }
                assert(unused[d - 1]);
                Sudoku::lemma_fill_admits(start, *puzzle, g[target as int], value, sol);
            }
        }
    }
}

/// Hidden single: a value that only one cell of the group still allows goes
/// into that cell.
fn value_fill(puzzle: &mut Sudoku, indexes: &Vec<Index>)
    requires
        old(puzzle).wf(),
        valid_group(cells_of(indexes@)),
    ensures
        final(puzzle).advanced_from(*old(puzzle)),
        final(puzzle).remaining() == old(puzzle).remaining() ==> *final(puzzle) == *old(puzzle)
            && value_fill_idle(*old(puzzle), cells_of(indexes@)),
        value_fill_idle(*old(puzzle), cells_of(indexes@)) ==> *final(puzzle) == *old(puzzle),
        placed(*final(puzzle), *old(puzzle), cells_of(indexes@)),
        forall|sol: Seq<u32>, v: u32, k: int|
            #![trigger old(puzzle).admits(sol), sole_acceptor(*old(puzzle), cells_of(indexes@), v, k)]
            digit_grid(sol) && group_solved(sol, cells_of(indexes@)) && old(puzzle).admits(sol)
                && sole_acceptor(*old(puzzle), cells_of(indexes@), v, k) ==> final(puzzle).value(
                cells_of(indexes@)[k],
            ) == v,
        forall|sol: Seq<u32>|
            digit_grid(sol) && group_solved(sol, cells_of(indexes@)) && #[trigger] old(puzzle).admits(sol)
                ==> final(puzzle).admits(sol),
{
    let ghost start = *puzzle;
    let ghost g = cells_of(indexes@);
    let mut value: u32 = 1;
    while value <= SIZE
        invariant
            valid_group(g),
            g == cells_of(indexes@),
            1 <= value <= 10,
            puzzle.advanced_from(start),
            puzzle.remaining() == start.remaining() ==> *puzzle == start,
            puzzle.remaining() == start.remaining() ==> forall|w: u32|
                1 <= w < value && #[trigger] count_true(acceptors(start, g, w)) == 1 ==> forall|k: int|
                    0 <= k < 9 && start.allows(g[k], w) ==> start.value(g[k]) != 0,
            value_fill_idle(start, g) ==> *puzzle == start,
            forall|sol: Seq<u32>|
                digit_grid(sol) && group_solved(sol, g) && #[trigger] start.admits(sol) ==> puzzle.admits(sol),
            placed(*puzzle, start, g),
            start.wf(),
            forall|sol: Seq<u32>, v: u32, k: int|
                #![trigger start.admits(sol), sole_acceptor(start, g, v, k)]
                digit_grid(sol) && group_solved(sol, g) && start.admits(sol) && sole_acceptor(start, g, v, k)
                    && v < value ==> puzzle.value(g[k]) == v,
        decreases 10 - value,
    {
        let ghost acc = acceptors(*puzzle, g, value);
        let mut occurences: u32 = 0;
        let mut target: usize = 0;
        let mut k: usize = 0;
        while k < 9
            invariant
                valid_group(g),
                g == cells_of(indexes@),
                puzzle.wf(),
                acc == acceptors(*puzzle, g, value),
                k <= 9,
                occurences == count_true(acc.subrange(0, k as int)),
                occurences >= 1 ==> target < k && acc[target as int],
            decreases 9 - k,
        {
            proof {
                assert(acc.subrange(0, k + 1).drop_last() =~= acc.subrange(0, k as int));
                lemma_count_bound(acc.subrange(0, k as int));
            }
            assert(0 <= g[k as int] < 81);
            if puzzle.is_candidate(indexes[k], value) {
                occurences += 1;
                target = k;
            }
            k += 1;
        }
        assert(acc.subrange(0, 9) =~= acc);
        let ghost before = *puzzle;
        proof {
            assert forall|sol: Seq<u32>, k: int|
                #![trigger start.admits(sol), sole_acceptor(start, g, value, k)]
                digit_grid(sol) && group_solved(sol, g) && start.admits(sol) && sole_acceptor(start, g, value, k)
                    && before.value(g[k]) == 0 implies occurences == 1 && target == k by {
                assert(occurs_in(sol, g, value));
                let k1 = choose|k1: int| 0 <= k1 < 9 && #[trigger] sol[g[k1]] == value;
                assert(start.allows(g[k1], sol[g[k1]]));
                lemma_count_one(acceptors(start, g, value), k);
                assert(acceptors(start, g, value)[k1]);
                assert(sol[g[k]] == value);
                assert(before.admits(sol));
                assert(before.allows(g[k], sol[g[k]]));
                assert(acc[k]);
                assert forall|q: int| 0 <= q < 9 && #[trigger] acc[q] implies acceptors(start, g, value)[q] by {
                    let c = g[q];
                    assert(before.fixed(c) == start.fixed(c));
                    if start.value(c) == 0 && before.value(c) != 0 {
                        before.lemma_cell(c);
                        assert(before.value(c) == value);
                    } else {
                        assert(before.has_candidate(c, value as int) == start.has_candidate(c, value as int));
                    }
                }
                lemma_count_mono(acc, acceptors(start, g, value));
                lemma_count_positive(acc, k);
                lemma_count_one(acc, k);
            }
        }
        if occurences == 1 {
            assert(0 <= g[target as int] < 81);
            puzzle.fill(indexes[target], value);
            proof {
                Sudoku::lemma_advanced_trans(start, before, *puzzle);
                assert forall|sol: Seq<u32>|
                    digit_grid(sol) && group_solved(sol, g) && #[trigger] start.admits(sol) implies puzzle.admits(
                    sol,
                ) by {
                    assert(occurs_in(sol, g, value));
                    let k = choose|k: int| 0 <= k < 9 && #[trigger] sol[g[k]] == value;
                    assert(before.allows(g[k], sol[g[k]]));
                    assert(acc[k]);
                    lemma_count_one(acc, target as int);
                    Sudoku::lemma_fill_admits(before, *puzzle, g[target as int], value, sol);
                }
                assert(acc[target as int]);
                let t = g[target as int];
                if before.value(t) == 0 {
                    assert(start.value(t) == 0);
                    before.lemma_cell(t);
                    assert(start.has_candidate(t, value as int) == before.has_candidate(t, value as int));
                    assert forall|a: int|
                        0 <= a < 9 && start.value(g[a]) == 0 && #[trigger] puzzle.value(g[a]) != 0 implies {
                        &&& start.allows(g[a], puzzle.value(g[a]))
                        &&& forall|w: int| #[trigger] puzzle.has_candidate(g[a], w) == (w == puzzle.value(g[a]))
                    } by {
                        if g[a] != t {
                            assert(before.value(g[a]) == puzzle.value(g[a]));
                            assert forall|w: int| #[trigger] puzzle.has_candidate(g[a], w) == before.has_candidate(
                                g[a],
                                w,
                            ) by {}
                        }
                    }
                }
                if value_fill_idle(start, g) {
                    assert(count_true(acceptors(start, g, value)) == 1);
                    lemma_count_one(acc, target as int);
                }
                if puzzle.remaining() == start.remaining() {
                    lemma_count_one(acc, target as int);
                    assert forall|k: int| 0 <= k < 9 && start.allows(g[k], value) implies start.value(g[k])
                        != 0 by {
                        assert(acc[k]);
                    }
                }
            }
        }
        proof {
            assert(puzzle.advanced_from(before));
            assert forall|sol: Seq<u32>, v: u32, k: int|
                #![trigger start.admits(sol), sole_acceptor(start, g, v, k)]
                digit_grid(sol) && group_solved(sol, g) && start.admits(sol) && sole_acceptor(start, g, v, k)
                    && v < value + 1 implies puzzle.value(g[k]) == v by {
                if v < value {
                    assert(before.value(g[k]) == v);
                } else if before.value(g[k]) != 0 {
                    assert(occurs_in(sol, g, value));
                    let k1 = choose|k1: int| 0 <= k1 < 9 && #[trigger] sol[g[k1]] == value;
                    assert(start.allows(g[k1], sol[g[k1]]));
                    lemma_count_one(acceptors(start, g, value), k);
                    assert(acceptors(start, g, value)[k1]);
                    assert(before.admits(sol));
                    before.lemma_admitted_values(sol);
                    assert(before.value(g[k]) == value);
                }
            }
        }
        value += 1;
    }
}

/// Single-empty-cell fills over every box, row and column.
fn do_fills(puzzle: &mut Sudoku)
    requires
        old(puzzle).wf(),
    ensures
        final(puzzle).advanced_from(*old(puzzle)),
        final(puzzle).remaining() == old(puzzle).remaining() ==> *final(puzzle) == *old(puzzle),
        final(puzzle).remaining() == old(puzzle).remaining() ==> forall|f: int, n: int|
            0 <= f < 3 && 0 <= n < 9 ==> !fill_applies(*old(puzzle), #[trigger] group(f, n)),
        (forall|f: int, n: int| 0 <= f < 3 && 0 <= n < 9 ==> !fill_applies(*old(puzzle), #[trigger] group(f, n)))
            ==> *final(puzzle) == *old(puzzle),
        forall|sol: Seq<u32>| is_solution(sol) && #[trigger] old(puzzle).admits(sol) ==> final(puzzle).admits(sol),
        resolved_only(*final(puzzle), *old(puzzle)),
{
    let ghost start = *puzzle;
    proof {
        lemma_groups(0);
    }
    let mut i: u32 = 0;
    while i < SIZE
        invariant
            i <= 9,
            forall|f: int, n: int| 0 <= f < 3 && 0 <= n < 9 ==> valid_group(#[trigger] group(f, n)),
            start.wf(),
            puzzle.advanced_from(start),
            puzzle.remaining() == start.remaining() ==> *puzzle == start,
            puzzle.remaining() == start.remaining() ==> forall|f: int, n: int|
                0 <= f < 3 && 0 <= n < i ==> !fill_applies(start, #[trigger] group(f, n)),
            (forall|f: int, n: int| 0 <= f < 3 && 0 <= n < 9 ==> !fill_applies(start, #[trigger] group(f, n)))
                ==> *puzzle == start,
            forall|sol: Seq<u32>| is_solution(sol) && #[trigger] start.admits(sol) ==> puzzle.admits(sol),
            resolved_only(*puzzle, start),
        decreases 9 - i,
    {
        let ghost s0 = *puzzle;
        assert(valid_group(group(0, i as int)) && valid_group(group(1, i as int)) && valid_group(group(2, i as int)));
        fill(puzzle, &box_indexes(i));
        let ghost s1 = *puzzle;
        fill(puzzle, &row_indexes(i));
        let ghost s2 = *puzzle;
        fill(puzzle, &col_indexes(i));
        proof {
            Sudoku::lemma_advanced_trans(s0, s1, s2);
            Sudoku::lemma_advanced_trans(s0, s2, *puzzle);
            Sudoku::lemma_advanced_trans(start, s0, *puzzle);
            lemma_resolved_step_fill(s0, s1, 0, i);
            lemma_resolved_step_fill(s1, s2, 1, i);
            lemma_resolved_step_fill(s2, *puzzle, 2, i);
            lemma_resolved_trans(s0, s1, s2);
            Sudoku::lemma_advanced_trans(s0, s1, s2);
            lemma_resolved_trans(s0, s2, *puzzle);
            lemma_resolved_trans(start, s0, *puzzle);
            assert forall|sol: Seq<u32>| is_solution(sol) && #[trigger] start.admits(sol) implies puzzle.admits(sol) by {
                assert(group_solved(sol, group(0, i as int)));
                assert(group_solved(sol, group(1, i as int)));
                assert(group_solved(sol, group(2, i as int)));
                assert(s0.admits(sol));
                assert(s1.admits(sol));
                assert(s2.admits(sol));
            }
        }
        i += 1;
    }
}

/// Hidden-single fills over every box, row and column.
fn do_value_fills(puzzle: &mut Sudoku)
    requires
        old(puzzle).wf(),
    ensures
        final(puzzle).advanced_from(*old(puzzle)),
        final(puzzle).remaining() == old(puzzle).remaining() ==> *final(puzzle) == *old(puzzle),
        final(puzzle).remaining() == old(puzzle).remaining() ==> forall|f: int, n: int|
            0 <= f < 3 && 0 <= n < 9 ==> value_fill_idle(*old(puzzle), #[trigger] group(f, n)),
        (forall|f: int, n: int| 0 <= f < 3 && 0 <= n < 9 ==> value_fill_idle(*old(puzzle), #[trigger] group(f, n)))
            ==> *final(puzzle) == *old(puzzle),
        forall|sol: Seq<u32>| is_solution(sol) && #[trigger] old(puzzle).admits(sol) ==> final(puzzle).admits(sol),
        resolved_only(*final(puzzle), *old(puzzle)),
        resolved_from_candidates(*final(puzzle), *old(puzzle)),
{
    let ghost start = *puzzle;
    proof {
        lemma_groups(0);
    }
    let mut i: u32 = 0;
    while i < SIZE
        invariant
            i <= 9,
            forall|f: int, n: int| 0 <= f < 3 && 0 <= n < 9 ==> valid_group(#[trigger] group(f, n)),
            start.wf(),
            puzzle.advanced_from(start),
            puzzle.remaining() == start.remaining() ==> *puzzle == start,
            puzzle.remaining() == start.remaining() ==> forall|f: int, n: int|
                0 <= f < 3 && 0 <= n < i ==> value_fill_idle(start, #[trigger] group(f, n)),
            (forall|f: int, n: int| 0 <= f < 3 && 0 <= n < 9 ==> value_fill_idle(start, #[trigger] group(f, n)))
                ==> *puzzle == start,
            forall|sol: Seq<u32>| is_solution(sol) && #[trigger] start.admits(sol) ==> puzzle.admits(sol),
            resolved_only(*puzzle, start),
            resolved_from_candidates(*puzzle, start),
        decreases 9 - i,
    {
        let ghost s0 = *puzzle;
        assert(valid_group(group(0, i as int)) && valid_group(group(1, i as int)) && valid_group(group(2, i as int)));
        value_fill(puzzle, &box_indexes(i));
        let ghost s1 = *puzzle;
        value_fill(puzzle, &row_indexes(i));
        let ghost s2 = *puzzle;
        value_fill(puzzle, &col_indexes(i));
        proof {
            Sudoku::lemma_advanced_trans(s0, s1, s2);
            Sudoku::lemma_advanced_trans(s0, s2, *puzzle);
            Sudoku::lemma_advanced_trans(start, s0, *puzzle);
            lemma_placed_resolved(s1, s0, group(0, i as int));
            lemma_placed_resolved(s2, s1, group(1, i as int));
            lemma_placed_resolved(*puzzle, s2, group(2, i as int));
            lemma_resolved_trans(s0, s1, s2);
            Sudoku::lemma_advanced_trans(s0, s1, s2);
            lemma_resolved_trans(s0, s2, *puzzle);
            lemma_resolved_trans(start, s0, *puzzle);
            assert forall|sol: Seq<u32>| is_solution(sol) && #[trigger] start.admits(sol) implies puzzle.admits(sol) by {
                assert(group_solved(sol, group(0, i as int)));
                assert(group_solved(sol, group(1, i as int)));
                assert(group_solved(sol, group(2, i as int)));
                assert(s0.admits(sol));
                assert(s1.admits(sol));
                assert(s2.admits(sol));
            }
        }
        i += 1;
    }
}

/// Elimination by known values over every box, row and column.
fn do_clean(puzzle: &mut Sudoku)
    requires
        old(puzzle).wf(),
    ensures
        final(puzzle).advanced_from(*old(puzzle)),
        final(puzzle).remaining() == old(puzzle).remaining() ==> forall|f: int, n: int|
            0 <= f < 3 && 0 <= n < 9 ==> clean_idle(*final(puzzle), #[trigger] group(f, n)),
        (forall|f: int, n: int| 0 <= f < 3 && 0 <= n < 9 ==> clean_idle(*old(puzzle), #[trigger] group(f, n)))
            ==> *final(puzzle) == *old(puzzle),
        forall|sol: Seq<u32>| is_solution(sol) && #[trigger] old(puzzle).admits(sol) ==> final(puzzle).admits(sol),
        forall|j: int, w: int|
            0 <= j < 81 && #[trigger] final(puzzle).has_candidate(j, w) ==> old(puzzle).has_candidate(j, w),
        forall|f: int, n: int, a: int, b: int|
            0 <= f < 3 && 0 <= n < 9 && 0 <= a < 9 && 0 <= b < 9 && #[trigger] final(puzzle).value(group(f, n)[a])
                == 0 && #[trigger] old(puzzle).value(group(f, n)[b]) != 0 ==> !final(puzzle).has_candidate(
                group(f, n)[a],
                old(puzzle).value(group(f, n)[b]) as int,
            ),
{
    let ghost start = *puzzle;
    proof {
        lemma_groups(0);
    }
    let mut i: u32 = 0;
    while i < SIZE
        invariant
            i <= 9,
            forall|f: int, n: int| 0 <= f < 3 && 0 <= n < 9 ==> valid_group(#[trigger] group(f, n)),
            puzzle.advanced_from(start),
            puzzle.remaining() == start.remaining() ==> forall|f: int, n: int|
                0 <= f < 3 && 0 <= n < i ==> clean_idle(*puzzle, #[trigger] group(f, n)),
            (forall|f: int, n: int| 0 <= f < 3 && 0 <= n < 9 ==> clean_idle(start, #[trigger] group(f, n)))
                ==> *puzzle == start,
            forall|sol: Seq<u32>| is_solution(sol) && #[trigger] start.admits(sol) ==> puzzle.admits(sol),
            forall|j: int, w: int| 0 <= j < 81 && #[trigger] puzzle.has_candidate(j, w) ==> start.has_candidate(j, w),
            forall|f: int, n: int, a: int, b: int|
                0 <= f < 3 && 0 <= n < i && 0 <= a < 9 && 0 <= b < 9 && #[trigger] puzzle.value(group(f, n)[a]) == 0
                    && #[trigger] start.value(group(f, n)[b]) != 0 ==> !puzzle.has_candidate(
                    group(f, n)[a],
                    start.value(group(f, n)[b]) as int,
                ),
        decreases 9 - i,
    {
        let ghost s0 = *puzzle;
        assert(valid_group(group(0, i as int)) && valid_group(group(1, i as int)) && valid_group(group(2, i as int)));
        clean(puzzle, &box_indexes(i));
        let ghost s1 = *puzzle;
        clean(puzzle, &row_indexes(i));
        let ghost s2 = *puzzle;
        clean(puzzle, &col_indexes(i));
        proof {
            Sudoku::lemma_advanced_trans(s0, s1, s2);
            Sudoku::lemma_advanced_trans(s1, s2, *puzzle);
            Sudoku::lemma_advanced_trans(s0, s2, *puzzle);
            Sudoku::lemma_advanced_trans(start, s0, *puzzle);
            assert forall|sol: Seq<u32>| is_solution(sol) && #[trigger] start.admits(sol) implies puzzle.admits(sol) by {
                assert(group_solved(sol, group(0, i as int)));
                assert(group_solved(sol, group(1, i as int)));
                assert(group_solved(sol, group(2, i as int)));
                assert(s0.admits(sol));
                assert(s1.admits(sol));
                assert(s2.admits(sol));
            }
            assert forall|f: int, n: int, a: int, b: int|
                0 <= f < 3 && 0 <= n < i + 1 && 0 <= a < 9 && 0 <= b < 9 && #[trigger] puzzle.value(group(f, n)[a])
                    == 0 && #[trigger] start.value(group(f, n)[b]) != 0 implies !puzzle.has_candidate(
                group(f, n)[a],
                start.value(group(f, n)[b]) as int,
            ) by {
                let g = group(f, n);
                let c = g[a];
                let w = start.value(g[b]) as int;
                assert(0 <= c < 81 && 0 <= g[b] < 81);
                assert(s0.value(g[b]) == w);
                assert(s1.value(g[b]) == w);
                assert(s2.value(g[b]) == w);
                if s2.value(c) != 0 {
                    assert(puzzle.value(c) == s2.value(c));
                } else if s1.value(c) != 0 {
                    assert(s2.value(c) == s1.value(c));
                } else if s0.value(c) != 0 {
                    assert(s1.value(c) == s0.value(c));
                } else if n < i {
                    assert(!s0.has_candidate(c, w));
                    assert(!s1.has_candidate(c, w));
                    assert(!s2.has_candidate(c, w));
                } else if f == 0 {
                    assert(held_in(s0, g, w));
                    assert(!s1.has_candidate(c, w));
                    assert(!s2.has_candidate(c, w));
                } else if f == 1 {
                    assert(held_in(s1, g, w));
                    assert(!s2.has_candidate(c, w));
                } else {
                    assert(held_in(s2, g, w));
                }
            }
            if puzzle.remaining() == start.remaining() {
                assert forall|f: int, n: int| 0 <= f < 3 && 0 <= n < i + 1 implies clean_idle(
                    *puzzle,
                    #[trigger] group(f, n),
                ) by {
                    if n < i {
                        lemma_clean_idle_kept(s0, *puzzle, group(f, n));
                    } else if f == 0 {
                        lemma_clean_idle_kept(s1, *puzzle, group(f, n));
                    } else if f == 1 {
                        lemma_clean_idle_kept(s2, *puzzle, group(f, n));
                    }
                }
            }
        }
        i += 1;
    }
}

/// Runs the deduction rules until the grid is complete or a whole sweep of
/// all three rules over all groups changes nothing, and also returns the
/// number of sweeps made. That number is at most one more than the number of
/// unresolved cells at the start, and 1 where no rule applies at the start.
pub fn solve_counted(puzzle: &mut Sudoku) -> (r: (bool, u32))
    requires
        old(puzzle).wf(),
    ensures
        final(puzzle).advanced_from(*old(puzzle)),
        r.0 == (final(puzzle).remaining() == 0),
        !r.0 ==> stalled(*final(puzzle)),
        1 <= r.1 <= old(puzzle).remaining() + 1,
        stalled(*old(puzzle)) ==> r.1 == 1 && *final(puzzle) == *old(puzzle),
        forall|sol: Seq<u32>| is_solution(sol) && #[trigger] old(puzzle).admits(sol) ==> final(puzzle).admits(sol),
{
    let ghost start = *puzzle;
    let mut rounds: u32 = 0;
    let ghost mut quiet = false;
    proof {
        start.lemma_cell(0);
    }
    loop
        invariant
            start == *old(puzzle),
            start.remaining() <= 81,
            puzzle.advanced_from(start),
            quiet ==> stalled(*puzzle) && puzzle.remaining() >= 1,
            rounds + puzzle.remaining() <= start.remaining() + (if quiet { 1int } else { 0int }),
            rounds == 0 ==> *puzzle == start && !quiet,
            stalled(start) ==> rounds == 0,
            forall|sol: Seq<u32>| is_solution(sol) && #[trigger] start.admits(sol) ==> puzzle.admits(sol),
        decreases puzzle.total_candidates(),
    {
        let progress = puzzle.progress();
        let ghost s0 = *puzzle;
        do_clean(puzzle);
        let ghost s1 = *puzzle;
        do_fills(puzzle);
        let ghost s2 = *puzzle;
        do_value_fills(puzzle);
        proof {
            Sudoku::lemma_advanced_trans(s0, s1, s2);
            Sudoku::lemma_advanced_trans(s1, s2, *puzzle);
            Sudoku::lemma_advanced_trans(s0, s2, *puzzle);
            Sudoku::lemma_advanced_trans(start, s0, *puzzle);
            assert forall|sol: Seq<u32>| is_solution(sol) && #[trigger] start.admits(sol) implies puzzle.admits(sol) by {
                assert(s0.admits(sol));
                assert(s1.admits(sol));
                assert(s2.admits(sol));
            }
        }
        rounds += 1;
        if puzzle.complete() {
            return (true, rounds);
        }
        if puzzle.progress() == progress {
            return (false, rounds);
        }
        proof {
            quiet = puzzle.remaining() == s0.remaining();
        }
    }
}

/// Runs the deduction rules until the grid is complete (returns `true`) or a
/// whole sweep of all three rules over all groups changes nothing (returns
/// `false`, and the state is then a fixed point of every rule).
pub fn solve(puzzle: &mut Sudoku) -> (r: bool)
    requires
        old(puzzle).wf(),
    ensures
        final(puzzle).advanced_from(*old(puzzle)),
        r == (final(puzzle).remaining() == 0),
        !r ==> stalled(*final(puzzle)),
        stalled(*old(puzzle)) ==> *final(puzzle) == *old(puzzle),
        forall|sol: Seq<u32>| is_solution(sol) && #[trigger] old(puzzle).admits(sol) ==> final(puzzle).admits(sol),
{
    solve_counted(puzzle).0
}

/// A state built from a puzzle has at most 80 unresolved cells, or no rule
/// applies to it at all; with the contract of `solve_counted`, solving it
/// takes at most `VOLUME` sweeps.
pub proof fn lemma_built_sweep_bound(puzzle: SudokuPuzzle, s: Sudoku)
    requires
        puzzle.wf(),
        s.built_from(puzzle),
    ensures
        s.remaining() + 1 <= 81 || stalled(s),
{
    let zeros = Seq::new(81, |i: int| puzzle.givens()[i] == 0);
    if exists|i: int| 0 <= i < 81 && puzzle.givens()[i] != 0 {
        let i = choose|i: int| 0 <= i < 81 && puzzle.givens()[i] != 0;
        lemma_count_update(zeros, i, true);
        lemma_count_bound(zeros.update(i, true));
    } else {
        lemma_groups(0);
        assert forall|f: int, n: int| 0 <= f < 3 && 0 <= n < 9 implies {
            &&& clean_idle(s, #[trigger] group(f, n))
            &&& !fill_applies(s, group(f, n))
            &&& value_fill_idle(s, group(f, n))
        } by {
            let g = group(f, n);
            assert(valid_group(g));
            lemma_count_all(open_in(s, g));
            assert forall|v: u32| 1 <= v <= 9 implies count_true(#[trigger] acceptors(s, g, v)) == 9 by {
                assert forall|k: int| 0 <= k < 9 implies #[trigger] acceptors(s, g, v)[k] by {
                    s.lemma_cell(g[k]);
                    assert(s.has_candidate(g[k], v as int));
                }
                lemma_count_all(acceptors(s, g, v));
            }
        }
    }
}

} // verus!
