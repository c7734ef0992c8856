use vstd::prelude::*;
use crate::error::SolveError;
use crate::rules::{
    box_has, box_of, col_has, col_of, complete, consistent, count_filled, extends, in_board, is_board,
    is_candidate, lemma_consistent_update, lemma_count_filled_all, lemma_count_filled_bound,
    lemma_count_filled_update, lemma_count_filled_zero, lemma_has_update, lemma_index_distinct,
    lemma_line_pos, lemma_position, lemma_solution_candidate, lemma_sub_candidate,
    lemma_values_of, line_pos, line_rc, peers, row_has, row_of, solves, unit_of, values_of, Line,
};
use crate::laws::lemma_hidden_single;
use crate::unit::{Axis, row_column_to_box};

verus! {

/// A 9x9 board with its unit trackers and its cache of candidates.
pub struct Sudoku {
    /// Number of filled cells.
    pub len: usize,
    /// The 81 cells, row-major; 0 is blank.
    pub data: Vec<u8>,
    /// Values committed to each row.
    pub rows: Vec<Axis>,
    /// Values committed to each column.
    pub columns: Vec<Axis>,
    /// Values committed to each box, boxes numbered row-major.
    pub boxes: Vec<Axis>,
    /// `grid[p * 9 + k]` caches whether value `k + 1` may go at position `p`.
    pub grid: Vec<bool>,
}

impl Sudoku {
    /// Cached candidate flag for value `k + 1` at position `p`.
    pub open spec fn grid_at(&self, p: int, k: int) -> bool {
        self.grid@[p * 9 + k]
    }

    /// The unit trackers agree with the cells.
    pub open spec fn units_match(&self) -> bool {
        &&& self.rows@.len() == 9
        &&& self.columns@.len() == 9
        &&& self.boxes@.len() == 9
        &&& forall|u: int| 0 <= u < 9 ==> (#[trigger] self.rows@[u]).wf()
        &&& forall|u: int| 0 <= u < 9 ==> (#[trigger] self.columns@[u]).wf()
        &&& forall|u: int| 0 <= u < 9 ==> (#[trigger] self.boxes@[u]).wf()
        &&& forall|u: int, v: int|
            #![trigger self.rows@[u].has(v)]
            #![trigger row_has(self.data@, u, v)]
            0 <= u < 9 && 1 <= v <= 9 ==> (self.rows@[u].has(v) <==> row_has(self.data@, u, v))
        &&& forall|u: int, v: int|
            #![trigger self.columns@[u].has(v)]
            #![trigger col_has(self.data@, u, v)]
            0 <= u < 9 && 1 <= v <= 9 ==> (self.columns@[u].has(v) <==> col_has(self.data@, u, v))
        &&& forall|u: int, v: int|
            #![trigger self.boxes@[u].has(v)]
            #![trigger box_has(self.data@, u, v)]
            0 <= u < 9 && 1 <= v <= 9 ==> (self.boxes@[u].has(v) <==> box_has(self.data@, u, v))
    }

    /// Well-formed: a consistent board, its count of filled cells, trackers
    /// that agree with it, and no cached candidate on a filled cell.
    pub open spec fn wf(&self) -> bool {
        &&& is_board(self.data@)
        &&& consistent(self.data@)
        &&& self.len == count_filled(self.data@)
        &&& self.units_match()
        &&& self.grid@.len() == 729
        &&& forall|p: int, k: int|
            in_board(p) && 0 <= k < 9 && self.data@[p] != 0 ==> !#[trigger] self.grid_at(p, k)
    }

    /// The candidate cache is up to date: on each blank cell it flags
    /// exactly the values that the cell's units leave open.
    pub open spec fn fresh(&self) -> bool {
        forall|p: int, k: int|
            in_board(p) && 0 <= k < 9 && self.data@[p] == 0 ==> (#[trigger] self.grid_at(p, k)
                <==> is_candidate(self.data@, p, k + 1))
    }

    /// Value `k + 1` is flagged in exactly one of the nine cells of unit
    /// `i` of kind `line`.
    pub open spec fn single_flag(&self, line: Line, i: int, k: int) -> bool {
        exists|j0: int|
            0 <= j0 < 9 && #[trigger] self.grid_at(line_pos(line, i, j0), k) && forall|j: int|
                0 <= j < 9 && j != j0 ==> !#[trigger] self.grid_at(line_pos(line, i, j), k)
    }

    /// Value `k + 1` is flagged by exactly one cell of the unit of kind
    /// `line` that holds position `q`, and that cell is `q`.
    pub open spec fn single_at(&self, line: Line, q: int, k: int) -> bool {
        self.single_flag(line, unit_of(line, q), k) && self.grid_at(q, k)
    }

    /// How many of the first `m` pairs (unit `m / 9`, value `m % 9` + 1),
    /// in order, are hidden singles of kind `line`.
    pub open spec fn single_count(&self, line: Line, m: int) -> nat
        decreases m,
    {
        if m <= 0 {
            0
        } else {
            self.single_count(line, m - 1) + if self.single_flag(line, (m - 1) / 9, (m - 1) % 9) {
                1nat
            } else {
                0nat
            }
        }
    }

    /// `after` is this board with every hidden single of kind `line` placed
    /// and no other cell changed.
    pub open spec fn hidden_placed(&self, line: Line, after: Seq<u8>) -> bool {
        &&& after.len() == 81
        &&& forall|q: int, k: int|
            in_board(q) && 0 <= k < 9 && #[trigger] self.single_at(line, q, k) ==> after[q] == k + 1
        &&& self.only_hidden(line, after)
    }

    /// Every cell where `after` differs from this board holds a hidden
    /// single of kind `line`.
    pub open spec fn only_hidden(&self, line: Line, after: Seq<u8>) -> bool {
        forall|q: int|
            in_board(q) && #[trigger] after[q] != self.data@[q] ==> 1 <= after[q] <= 9
                && self.single_at(line, q, after[q] - 1)
    }

    /// Every hidden single of kind `line` in the units before `i`, and in
    /// unit `i` for the values before `k + 1`, is placed in `after`.
    #[verifier::opaque]
    spec fn placed_upto(&self, line: Line, after: Seq<u8>, i: int, k: int) -> bool {
        forall|q: int, x: int|
            in_board(q) && ((unit_of(line, q) < i && 0 <= x < 9) || (unit_of(line, q) == i && 0
                <= x < k)) && #[trigger] self.single_at(line, q, x) ==> after[q] == x + 1
    }

    proof fn lemma_place_step(
        &self,
        line: Line,
        before: Seq<u8>,
        after: Seq<u8>,
        i: int,
        k: int,
        e: int,
    )
        requires
            self.placed_upto(line, before, i, k),
            self.only_hidden(line, before),
            before.len() == 81,
            0 <= i < 9,
            0 <= k < 9,
            in_board(e),
            unit_of(line, e) == i,
            before[e] == 0,
            self.single_at(line, e, k),
            after == before.update(e, (k + 1) as u8),
        ensures
            self.placed_upto(line, after, i, k + 1),
            self.only_hidden(line, after),
    {
        reveal(Sudoku::placed_upto);
        lemma_line_pos(line, i);
        assert forall|q: int, x: int|
            in_board(q) && ((unit_of(line, q) < i && 0 <= x < 9) || (unit_of(line, q) == i && 0 <= x
                < k + 1)) && #[trigger] self.single_at(line, q, x) implies after[q] == x + 1 by {
            if q == e {
                if x != k {
                    assert(before[q] == x + 1);
                }
            } else if unit_of(line, q) == i && x == k {
                let jq = choose|j: int| 0 <= j < 9 && #[trigger] line_pos(line, i, j) == q;
                let je = choose|j: int| 0 <= j < 9 && #[trigger] line_pos(line, i, j) == e;
                let j0 = choose|j0: int|
                    0 <= j0 < 9 && #[trigger] self.grid_at(line_pos(line, i, j0), k) && forall|j: int|
                        0 <= j < 9 && j != j0 ==> !#[trigger] self.grid_at(line_pos(line, i, j), k);
                assert(self.grid_at(line_pos(line, i, jq), k));
                assert(self.grid_at(line_pos(line, i, je), k));
                assert(jq == j0 && je == j0);
            } else {
                assert(before[q] == x + 1);
            }
        }
        assert forall|q: int| in_board(q) && #[trigger] after[q] != self.data@[q] implies 1 <= after[q]
            <= 9 && self.single_at(line, q, after[q] - 1) by {
            if q != e {
                assert(before[q] == after[q]);
            }
        }
    }

    proof fn lemma_skip_step(&self, line: Line, data: Seq<u8>, i: int, k: int)
        requires
            self.placed_upto(line, data, i, k),
            0 <= i < 9,
            0 <= k < 9,
            !self.single_flag(line, i, k),
        ensures
            self.placed_upto(line, data, i, k + 1),
    {
        reveal(Sudoku::placed_upto);
    }

    /// Position `q` is blank and flags exactly one value.
    pub open spec fn naked_at(&self, q: int) -> bool {
        self.data@[q] == 0 && values_of(self.flags(q)).len() == 1
    }

    /// The value that position `q` flags, when it flags exactly one.
    pub open spec fn naked_value(&self, q: int) -> u8 {
        values_of(self.flags(q))[0]
    }

    /// How many of the first `p` positions are naked singles.
    pub open spec fn naked_count(&self, p: int) -> nat
        decreases p,
    {
        if p <= 0 {
            0
        } else {
            self.naked_count(p - 1) + if self.naked_at(p - 1) {
                1nat
            } else {
                0nat
            }
        }
    }

    /// `after` is this board with the value of every naked single placed and
    /// no other cell changed.
    pub open spec fn naked_placed(&self, after: Seq<u8>) -> bool {
        &&& after.len() == 81
        &&& forall|q: int|
            in_board(q) ==> #[trigger] after[q] == if self.naked_at(q) {
                self.naked_value(q)
            } else {
                self.data@[q]
            }
    }

    /// Some blank cell flags no value at all.
    pub open spec fn has_dead_cell(&self) -> bool {
        exists|q: int|
            in_board(q) && self.data@[q] == 0 && #[trigger] values_of(self.flags(q)).len() == 0
    }

    /// Two naked singles of one unit flag the same value.
    pub open spec fn naked_clash(&self) -> bool {
        exists|q1: int, q2: int|
            in_board(q1) && in_board(q2) && peers(q1, q2) && #[trigger] self.naked_at(q1)
                && #[trigger] self.naked_at(q2) && self.naked_value(q1) == self.naked_value(q2)
    }

    /// The naked-single pass has handled the positions before `p`: their
    /// naked singles are placed in `after`, none of them is dead, and no two
    /// of them clash.
    #[verifier::opaque]
    spec fn naked_upto(&self, after: Seq<u8>, p: int) -> bool {
        &&& forall|q: int|
            0 <= q < p ==> #[trigger] after[q] == if self.naked_at(q) {
                self.naked_value(q)
            } else {
                self.data@[q]
            }
        &&& forall|q: int|
            0 <= q < p && self.data@[q] == 0 ==> #[trigger] values_of(self.flags(q)).len() >= 1
        &&& forall|q1: int, q2: int|
            0 <= q1 < p && 0 <= q2 < p && peers(q1, q2) && #[trigger] self.naked_at(q1)
                && #[trigger] self.naked_at(q2) ==> self.naked_value(q1) != self.naked_value(q2)
    }

    proof fn lemma_naked_step(&self, before: Seq<u8>, after: Seq<u8>, p: int)
        requires
            self.naked_upto(before, p),
            self.data@.len() == 81,
            before.len() == 81,
            in_board(p),
            before[p] == self.data@[p],
            self.data@[p] == 0 ==> values_of(self.flags(p)).len() >= 1,
            self.naked_at(p) ==> is_candidate(before, p, self.naked_value(p) as int)
                && after == before.update(p, self.naked_value(p)),
            !self.naked_at(p) ==> after == before,
        ensures
            self.naked_upto(after, p + 1),
    {
        reveal(Sudoku::naked_upto);
        assert forall|q1: int, q2: int|
            0 <= q1 < p + 1 && 0 <= q2 < p + 1 && peers(q1, q2) && #[trigger] self.naked_at(q1)
                && #[trigger] self.naked_at(q2) implies self.naked_value(q1) != self.naked_value(
            q2,
        ) by {
            let v = self.naked_value(p) as int;
            if q2 == p && q1 < p && self.naked_value(q1) == self.naked_value(q2) {
                assert(before[q1] == v);
                if row_of(q1) == row_of(p) {
                    assert(row_has(before, row_of(p), v));
                } else if col_of(q1) == col_of(p) {
                    assert(col_has(before, col_of(p), v));
                } else {
                    assert(box_has(before, box_of(p), v));
                }
            } else if q1 == p && q2 < p && self.naked_value(q1) == self.naked_value(q2) {
                assert(before[q2] == v);
                if row_of(q2) == row_of(p) {
                    assert(row_has(before, row_of(p), v));
                } else if col_of(q2) == col_of(p) {
                    assert(col_has(before, col_of(p), v));
                } else {
                    assert(box_has(before, box_of(p), v));
                }
            }
        }
    }

    /// No rule of propagation applies: each blank cell flags at least two
    /// values, and in no unit is a value flagged by exactly one cell.
    pub open spec fn stalled(&self) -> bool {
        &&& forall|q: int|
            in_board(q) && self.data@[q] == 0 ==> #[trigger] values_of(self.flags(q)).len() >= 2
        &&& forall|line: Line, i: int, k: int|
            0 <= i < 9 && 0 <= k < 9 ==> !#[trigger] self.single_flag(line, i, k)
    }
}

impl Sudoku {
    /// An empty board: no cell filled, every value open everywhere.
    pub fn new() -> (s: Sudoku)
        ensures
            s.wf(),
            s.fresh(),
            s.data@ == Seq::new(81, |p: int| 0u8),
            forall|u: int|
                0 <= u < 9 ==> #[trigger] s.rows@[u].i == u && s.columns@[u].i == u
                    && s.boxes@[u].i == u,
    {
        let mut data: Vec<u8> = Vec::new();
        let mut i: usize = 0;
        while i < 81
            invariant
                i <= 81,
                data@.len() == i,
                forall|p: int| 0 <= p < i ==> data@[p] == 0,
            decreases 81 - i,
        {
            data.push(0);
            i = i + 1;
        }
        let mut grid: Vec<bool> = Vec::new();
        let mut j: usize = 0;
        while j < 729
            invariant
                j <= 729,
                grid@.len() == j,
                forall|x: int| 0 <= x < j ==> grid@[x],
            decreases 729 - j,
        {
            grid.push(true);
            j = j + 1;
        }
        let mut rows: Vec<Axis> = Vec::new();
        let mut columns: Vec<Axis> = Vec::new();
        let mut boxes: Vec<Axis> = Vec::new();
        let mut u: usize = 0;
        while u < 9
            invariant
                u <= 9,
                rows@.len() == u,
                columns@.len() == u,
                boxes@.len() == u,
                forall|w: int|
                    0 <= w < u ==> (#[trigger] rows@[w]).wf() && rows@[w].i == w && forall|v: int|
                        1 <= v <= 9 ==> !#[trigger] rows@[w].has(v),
                forall|w: int|
                    0 <= w < u ==> (#[trigger] columns@[w]).wf() && columns@[w].i == w && forall|
                        v: int,
                    |
                        1 <= v <= 9 ==> !#[trigger] columns@[w].has(v),
                forall|w: int|
                    0 <= w < u ==> (#[trigger] boxes@[w]).wf() && boxes@[w].i == w && forall|v: int|
                        1 <= v <= 9 ==> !#[trigger] boxes@[w].has(v),
            decreases 9 - u,
        {
            rows.push(Axis::new(u));
            columns.push(Axis::new(u));
            boxes.push(Axis::new(u));
            u = u + 1;
        }
        let s = Sudoku { len: 0, data, rows, columns, boxes, grid };
        proof {
            lemma_count_filled_zero(s.data@);
            assert(s.data@ =~= Seq::new(81, |p: int| 0u8));
        }
        s
    }

    /// Writes `val` into the blank cell (`r`, `c`) and commits it to the
    /// cell's row, column and box. A filled cell, or a value that one of the
    /// three units already holds, is a contradiction and changes nothing.
    /// The candidates of other cells are left as they were.
    pub fn set(&mut self, r: usize, c: usize, val: u8) -> (res: Result<(), SolveError>)
        requires
            old(self).wf(),
            r < 9,
            c < 9,
            1 <= val <= 9,
        ensures
            res is Ok <==> is_candidate(old(self).data@, r * 9 + c, val as int),
            res is Err ==> res == Err::<(), SolveError>(SolveError::Contradiction { value: val })
                && *final(self) == *old(self),
            res is Ok ==> final(self).wf() && final(self).data@ == old(self).data@.update(
                r * 9 + c,
                val,
            ) && final(self).len == old(self).len + 1,
            res is Ok ==> forall|q: int, k: int|
                in_board(q) && 0 <= k < 9 && q != r * 9 + c ==> #[trigger] final(self).grid_at(q, k)
                    == old(self).grid_at(q, k),
    {
        let p: usize = r * 9 + c;
        let b = row_column_to_box(r, c);
        proof {
            lemma_position(r as int, c as int);
        }
        if self.data[p] != 0 || self.rows[r].contains(val) || self.columns[c].contains(val)
            || self.boxes[b].contains(val) {
            return Err(SolveError::Contradiction { value: val });
        }
        let ghost old_self = *self;
        proof {
            lemma_count_filled_bound(self.data@);
            lemma_count_filled_update(self.data@, p as int, val);
            lemma_has_update(self.data@, p as int, val);
            lemma_consistent_update(self.data@, p as int, val);
        }
        self.len = self.len + 1;
        self.data.set(p, val);
        let _ = self.rows[r].add(val);
        let _ = self.columns[c].add(val);
        let _ = self.boxes[b].add(val);
        assert forall|u: int, v: int| 0 <= u < 9 && 1 <= v <= 9 implies (self.rows@[u].has(v)
            <==> row_has(self.data@, u, v)) by {
            assert(old_self.rows@[u].has(v) <==> row_has(old_self.data@, u, v));
        }
        assert forall|u: int, v: int| 0 <= u < 9 && 1 <= v <= 9 implies (self.columns@[u].has(v)
            <==> col_has(self.data@, u, v)) by {
            assert(old_self.columns@[u].has(v) <==> col_has(old_self.data@, u, v));
        }
        assert forall|u: int, v: int| 0 <= u < 9 && 1 <= v <= 9 implies (self.boxes@[u].has(v)
            <==> box_has(self.data@, u, v)) by {
            assert(old_self.boxes@[u].has(v) <==> box_has(old_self.data@, u, v));
        }
        assert(self.units_match());
        clear_cell(&mut self.grid, p);
        assert forall|q: int, j: int| in_board(q) && 0 <= j < 9 && q != p implies #[trigger] self.grid_at(q, j)
            == old_self.grid_at(q, j) by {
            lemma_index_distinct(q, j, p as int, 0);
        }
        Ok(())
    }
}

/// Clears the nine cached candidates of position `p`.
fn clear_cell(grid: &mut Vec<bool>, p: usize)
    requires
        old(grid)@.len() == 729,
        p < 81,
    ensures
        final(grid)@.len() == 729,
        forall|x: int|
            0 <= x < 729 ==> #[trigger] final(grid)@[x] == if p * 9 <= x < p * 9 + 9 {
                false
            } else {
                old(grid)@[x]
            },
{
    let mut k: usize = 0;
    while k < 9
        invariant
            k <= 9,
            p < 81,
            grid@.len() == 729,
            forall|x: int|
                0 <= x < 729 ==> #[trigger] grid@[x] == if p * 9 <= x < p * 9 + k {
                    false
                } else {
                    old(grid)@[x]
                },
        decreases 9 - k,
    {
        grid.set(p * 9 + k, false);
        k = k + 1;
    }
}

/// Writes `cand` as the nine cached candidates of position `p`.
fn write_cell(grid: &mut Vec<bool>, p: usize, cand: &Vec<bool>)
    requires
        old(grid)@.len() == 729,
        p < 81,
        cand@.len() == 9,
    ensures
        final(grid)@.len() == 729,
        forall|x: int|
            0 <= x < 729 ==> #[trigger] final(grid)@[x] == if p * 9 <= x < p * 9 + 9 {
                cand@[x - p * 9]
            } else {
                old(grid)@[x]
            },
{
    let mut k: usize = 0;
    while k < 9
        invariant
            k <= 9,
            p < 81,
            cand@.len() == 9,
            grid@.len() == 729,
            forall|x: int|
                0 <= x < 729 ==> #[trigger] grid@[x] == if p * 9 <= x < p * 9 + k {
                    cand@[x - p * 9]
                } else {
                    old(grid)@[x]
                },
        decreases 9 - k,
    {
        grid.set(p * 9 + k, cand[k]);
        k = k + 1;
    }
}

impl Sudoku {
    /// The values that may still go at the blank cell (`r`, `c`):
    /// entry `k` holds when value `k + 1` is in none of the cell's units.
    pub fn candidates_for(&self, r: usize, c: usize) -> (res: Vec<bool>)
        requires
            self.wf(),
            r < 9,
            c < 9,
            self.data@[r * 9 + c] == 0,
        ensures
            res@.len() == 9,
            forall|k: int|
                0 <= k < 9 ==> #[trigger] res@[k] == is_candidate(self.data@, r * 9 + c, k + 1),
    {
        proof {
            lemma_position(r as int, c as int);
        }
        let mut possibilities = vec![true, true, true, true, true, true, true, true, true];
        let b = row_column_to_box(r, c);
        self.rows[r].mark_possibilities(&mut possibilities);
        self.columns[c].mark_possibilities(&mut possibilities);
        self.boxes[b].mark_possibilities(&mut possibilities);
        assert forall|k: int| 0 <= k < 9 implies #[trigger] possibilities@[k] == is_candidate(
            self.data@,
            r * 9 + c,
            k + 1,
        ) by {
            assert(self.rows@[r as int].has(k + 1) <==> row_has(self.data@, r as int, k + 1));
            assert(self.columns@[c as int].has(k + 1) <==> col_has(self.data@, c as int, k + 1));
            assert(self.boxes@[b as int].has(k + 1) <==> box_has(self.data@, b as int, k + 1));
        }
        possibilities
    }

    /// Recomputes the cached candidates of every blank cell from the
    /// unit trackers.
    pub fn update_grid(&mut self)
        requires
            old(self).wf(),
        ensures
            final(self).wf(),
            final(self).fresh(),
            final(self).data@ == old(self).data@,
            final(self).len == old(self).len,
            final(self).rows == old(self).rows,
            final(self).columns == old(self).columns,
            final(self).boxes == old(self).boxes,
    {
        let mut p: usize = 0;
        while p < 81
            invariant
                p <= 81,
                self.wf(),
                self.data@ == old(self).data@,
                self.len == old(self).len,
                self.rows == old(self).rows,
                self.columns == old(self).columns,
                self.boxes == old(self).boxes,
                forall|q: int, k: int|
                    0 <= q < p && 0 <= k < 9 && self.data@[q] == 0 ==> (#[trigger] self.grid_at(q, k)
                        <==> is_candidate(self.data@, q, k + 1)),
            decreases 81 - p,
        {
            if self.data[p] == 0 {
                proof {
                    lemma_position((p / 9) as int, (p % 9) as int);
                }
                let cand = self.candidates_for(p / 9, p % 9);
                let ghost before = *self;
                write_cell(&mut self.grid, p, &cand);
                assert forall|q: int, k: int| in_board(q) && 0 <= k < 9 && q != p implies #[trigger] self.grid_at(q, k)
                    == before.grid_at(q, k) by {
                    lemma_index_distinct(q, k, p as int, 0);
                }
                assert forall|k: int| 0 <= k < 9 implies #[trigger] self.grid_at(p as int, k)
                    == cand@[k] by {
                }
            }
            p = p + 1;
        }
    }

    /// The board is solved: all 81 cells are filled.
    pub fn done(&self) -> (r: bool)
        requires
            self.wf(),
        ensures
            r == complete(self.data@),
    {
        proof {
            lemma_count_filled_bound(self.data@);
            if complete(self.data@) {
                lemma_count_filled_all(self.data@);
            }
        }
        self.len == 81
    }
}

/// The values flagged in `data`, ascending: `k + 1` for each entry `k`
/// that holds.
pub fn presense_array_to_vec(data: &Vec<bool>) -> (options: Vec<u8>)
    requires
        data@.len() == 9,
    ensures
        options@ == values_of(data@),
{
    let mut options: Vec<u8> = Vec::new();
    let mut i: usize = 0;
    while i < 9
        invariant
            i <= 9,
            data@.len() == 9,
            options@ == values_of(data@.subrange(0, i as int)),
        decreases 9 - i,
    {
        let ghost pre = data@.subrange(0, i as int);
        assert(data@.subrange(0, i + 1).drop_last() =~= pre);
        if data[i] {
            options.push((i + 1) as u8);
        }
        i = i + 1;
    }
    assert(data@.subrange(0, 9) =~= data@);
    options
}

impl Sudoku {
    /// The nine cached candidate flags of position `p`.
    pub open spec fn flags(&self, p: int) -> Seq<bool> {
        self.grid@.subrange(p * 9, p * 9 + 9)
    }

    /// A copy of the cached candidate flags of position `p`.
    fn flags_at(&self, p: usize) -> (f: Vec<bool>)
        requires
            self.grid@.len() == 729,
            p < 81,
        ensures
            f@ == self.flags(p as int),
            forall|k: int| 0 <= k < 9 ==> #[trigger] f@[k] == self.grid_at(p as int, k),
    {
        let mut f: Vec<bool> = Vec::new();
        let mut k: usize = 0;
        while k < 9
            invariant
                k <= 9,
                p < 81,
                self.grid@.len() == 729,
                f@ == self.flags(p as int).subrange(0, k as int),
            decreases 9 - k,
        {
            f.push(self.grid[p * 9 + k]);
            k = k + 1;
        }
        assert(self.flags(p as int).subrange(0, 9) =~= self.flags(p as int));
        f
    }

    /// Picks the blank cell to branch on, on a stalled board where every
    /// blank cell has at least two candidates: the first one found with
    /// exactly two, else the first with the fewest. Returns its row, its
    /// column and its candidates in ascending order.
    pub fn find_loc_with_minimal_possiblities(&self) -> (res: (usize, usize, Vec<u8>))
        requires
            self.wf(),
            self.stalled(),
            !complete(self.data@),
        ensures
            res.0 < 9,
            res.2@.len() >= 2,
            res.1 < 9,
            self.data@[res.0 * 9 + res.1] == 0,
            res.2@ == values_of(self.flags(res.0 * 9 + res.1)),
            res.2@.len() < 3 || forall|q: int|
                in_board(q) && self.data@[q] == 0 ==> res.2@.len() <= #[trigger] values_of(
                    self.flags(q),
                ).len(),
            forall|q: int|
                0 <= q < res.0 * 9 + res.1 && self.data@[q] == 0 ==> #[trigger] values_of(
                    self.flags(q),
                ).len() >= 3 && values_of(self.flags(q)).len() > res.2@.len(),
    {
        let mut r: usize = 0;
        let mut c: usize = 0;
        let mut min: Vec<u8> = Vec::new();
        let mut found = false;
        let mut p: usize = 0;
        while p < 81
            invariant
                p <= 81,
                self.wf(),
                r < 9,
                c < 9,
                self.stalled(),
                found ==> self.data@[r * 9 + c] == 0 && min@ == values_of(self.flags(r * 9 + c))
                    && min@.len() >= 3,
                found ==> forall|q: int|
                    0 <= q < p && self.data@[q] == 0 ==> min@.len() <= #[trigger] values_of(
                        self.flags(q),
                    ).len(),
                !found ==> forall|q: int| 0 <= q < p ==> #[trigger] self.data@[q] != 0,
                forall|q: int|
                    0 <= q < p && self.data@[q] == 0 ==> #[trigger] values_of(self.flags(q)).len()
                        >= 3,
                found ==> r * 9 + c < p && forall|q: int|
                    0 <= q < r * 9 + c && self.data@[q] == 0 ==> #[trigger] values_of(
                        self.flags(q),
                    ).len() > min@.len(),
            decreases 81 - p,
        {
            if self.data[p] == 0 {
                proof {
                    lemma_position((p / 9) as int, (p % 9) as int);
                }
                let presense = self.flags_at(p);
                let possible = presense_array_to_vec(&presense);
                if possible.len() < 3 {
                    return (p / 9, p % 9, possible);
                }
                if !found || possible.len() < min.len() {
                    r = p / 9;
                    c = p % 9;
                    min = possible;
                    found = true;
                }
            }
            p = p + 1;
        }
        proof {
            if !found {
                assert(complete(self.data@));
            }
        }
        (r, c, min)
    }
}

impl Sudoku {
    /// Builds a board from 81 cells (row-major, 0 for blank) and computes its
    /// candidates. Fails with a contradiction exactly when the givens repeat
    /// a value within a unit.
    pub fn from_cells(cells: &Vec<u8>) -> (res: Result<Sudoku, SolveError>)
        requires
            is_board(cells@),
        ensures
            res is Ok <==> consistent(cells@),
            res matches Ok(s) ==> s.wf() && s.fresh() && s.data@ == cells@,
            res matches Err(e) ==> e is Contradiction,
    {
        let mut s = Sudoku::new();
        let mut i: usize = 0;
        while i < 81
            invariant
                i <= 81,
                is_board(cells@),
                s.wf(),
                s.data@ == Seq::new(81, |x: int| if x < i { cells@[x] } else { 0u8 }),
            decreases 81 - i,
        {
            let ghost part = s.data@;
            if cells[i] != 0 {
                proof {
                    lemma_position((i / 9) as int, (i % 9) as int);
                }
                let r = s.set(i / 9, i % 9, cells[i]);
                if r.is_err() {
                    proof {
                        if consistent(cells@) {
                            lemma_sub_candidate(cells@, part, i as int);
                        }
                    }
                    return Err(SolveError::Contradiction { value: cells[i] });
                }
            }
            assert(s.data@ =~= Seq::new(
                81,
                |x: int|
                    if x < i + 1 {
                        cells@[x]
                    } else {
                        0u8
                    },
            ));
            i = i + 1;
        }
        assert(s.data@ =~= cells@);
        s.update_grid();
        Ok(s)
    }

    /// A new board holding the cells of this one and `val` at the blank cell
    /// (`r`, `c`), with its candidates computed. Fails with a contradiction
    /// exactly when a unit of that cell already holds `val`.
    pub fn new_with(&self, r: usize, c: usize, val: u8) -> (res: Result<Sudoku, SolveError>)
        requires
            self.wf(),
            r < 9,
            c < 9,
            self.data@[r * 9 + c] == 0,
            1 <= val <= 9,
        ensures
            res is Ok <==> is_candidate(self.data@, r * 9 + c, val as int),
            res matches Err(e) ==> e == (SolveError::Contradiction { value: val }),
            res matches Ok(n) ==> n.wf() && n.fresh() && n.data@ == self.data@.update(
                r * 9 + c,
                val,
            ) && n.len == self.len + 1,
    {
        proof {
            lemma_position(r as int, c as int);
        }
        let p = r * 9 + c;
        let mut cells: Vec<u8> = Vec::new();
        let mut i: usize = 0;
        while i < 81
            invariant
                i <= 81,
                p == r * 9 + c,
                p < 81,
                1 <= val <= 9,
                self.wf(),
                cells@ == self.data@.update(p as int, val).subrange(0, i as int),
            decreases 81 - i,
        {
            if i == p {
                cells.push(val);
            } else {
                cells.push(self.data[i]);
            }
            i = i + 1;
        }
        let ghost full = self.data@.update(p as int, val);
        assert(cells@ =~= full);
        proof {
            if is_candidate(self.data@, p as int, val as int) {
                lemma_consistent_update(self.data@, p as int, val);
            }
            if consistent(full) {
                lemma_sub_candidate(full, self.data@, p as int);
            }
            lemma_count_filled_update(self.data@, p as int, val);
        }
        match Sudoku::from_cells(&cells) {
            Ok(n) => Ok(n),
            Err(_) => Err(SolveError::Contradiction { value: val }),
        }
    }
}

/// Row and column of the `j`-th cell of unit `i` of kind `line`.
pub fn line_cell(line: Line, i: usize, j: usize) -> (rc: (usize, usize))
    requires
        i < 9,
        j < 9,
    ensures
        rc.0 < 9,
        rc.1 < 9,
        (rc.0 as int, rc.1 as int) == line_rc(line, i as int, j as int),
{
    match line {
        Line::Row => (i, j),
        Line::Column => (j, i),
        Line::Box => ((i / 3) * 3 + j / 3, (i % 3) * 3 + j % 3),
    }
}

impl Sudoku {
    /// How many of the nine cells of unit `i` of kind `line` flag value
    /// `k + 1`, and the last of them.
    fn tally_value(&self, line: Line, i: usize, k: usize) -> (res: (usize, usize))
        requires
            self.grid@.len() == 729,
            i < 9,
            k < 9,
        ensures
            res.0 <= 9,
            res.1 < 9,
            self.single_flag(line, i as int, k as int) ==> res.0 == 1,
            res.0 == 1 ==> self.grid_at(line_pos(line, i as int, res.1 as int), k as int) && forall|
                j: int,
            |
                0 <= j < 9 && j != res.1 ==> !#[trigger] self.grid_at(
                    line_pos(line, i as int, j),
                    k as int,
                ),
    {
        let mut cnt: usize = 0;
        let mut lst: usize = 0;
        let ghost mut prev: int = 0;
        let mut j: usize = 0;
        while j < 9
            invariant
                j <= 9,
                k < 9,
                i < 9,
                self.grid@.len() == 729,
                cnt <= j,
                lst < 9,
                cnt >= 1 ==> lst < j && self.grid_at(line_pos(line, i as int, lst as int), k as int),
                cnt >= 2 ==> 0 <= prev < j && prev != lst && self.grid_at(
                    line_pos(line, i as int, prev),
                    k as int,
                ),
                forall|x: int|
                    0 <= x < j && #[trigger] self.grid_at(line_pos(line, i as int, x), k as int)
                        ==> cnt >= 1 && (cnt == 1 ==> x == lst),
            decreases 9 - j,
        {
            let (r, c) = line_cell(line, i, j);
            proof {
                lemma_position(r as int, c as int);
            }
            if self.grid[(r * 9 + c) * 9 + k] {
                proof {
                    prev = lst as int;
                }
                cnt = cnt + 1;
                lst = j;
            }
            j = j + 1;
        }
        proof {
            if self.single_flag(line, i as int, k as int) {
                let j0 = choose|j0: int|
                    0 <= j0 < 9 && #[trigger] self.grid_at(line_pos(line, i as int, j0), k as int)
                        && forall|j: int|
                        0 <= j < 9 && j != j0 ==> !#[trigger] self.grid_at(
                            line_pos(line, i as int, j),
                            k as int,
                        );
                assert(cnt >= 1);
                if cnt >= 2 {
                    assert(prev == j0 || lst == j0);
                }
            }
        }
        (cnt, lst)
    }

    /// For each value, how many of the nine cells of unit `i` of kind `line`
    /// flag it as a candidate, and the last of those cells.
    fn tally(&self, line: Line, i: usize) -> (res: (Vec<usize>, Vec<usize>))
        requires
            self.grid@.len() == 729,
            i < 9,
        ensures
            res.0@.len() == 9,
            res.1@.len() == 9,
            forall|k: int| 0 <= k < 9 ==> #[trigger] res.0@[k] <= 9,
            forall|k: int| 0 <= k < 9 ==> #[trigger] res.1@[k] < 9,
            forall|k: int|
                0 <= k < 9 && #[trigger] self.single_flag(line, i as int, k) ==> res.0@[k] == 1,
            forall|k: int|
                0 <= k < 9 && #[trigger] res.0@[k] == 1 ==> self.grid_at(
                    line_pos(line, i as int, res.1@[k] as int),
                    k,
                ) && forall|j: int|
                    0 <= j < 9 && j != res.1@[k] ==> !#[trigger] self.grid_at(
                        line_pos(line, i as int, j),
                        k,
                    ),
    {
        let mut counts: Vec<usize> = Vec::new();
        let mut last: Vec<usize> = Vec::new();
        let mut k: usize = 0;
        while k < 9
            invariant
                k <= 9,
                i < 9,
                self.grid@.len() == 729,
                counts@.len() == k,
                last@.len() == k,
                forall|x: int| 0 <= x < k ==> #[trigger] counts@[x] <= 9,
                forall|x: int| 0 <= x < k ==> #[trigger] last@[x] < 9,
                forall|x: int|
                    0 <= x < k && #[trigger] self.single_flag(line, i as int, x) ==> counts@[x] == 1,
                forall|x: int|
                    0 <= x < k && #[trigger] counts@[x] == 1 ==> self.grid_at(
                        line_pos(line, i as int, last@[x] as int),
                        x,
                    ) && forall|j: int|
                        0 <= j < 9 && j != last@[x] ==> !#[trigger] self.grid_at(
                            line_pos(line, i as int, j),
                            x,
                        ),
            decreases 9 - k,
        {
            let (cnt, lst) = self.tally_value(line, i, k);
            counts.push(cnt);
            last.push(lst);
            k = k + 1;
        }
        (counts, last)
    }

    /// Places the hidden singles of every unit of kind `line`: a value that
    /// exactly one cell of the unit flags as a candidate goes into that cell.
    /// The flags of a unit are read before any of its cells is filled.
    /// Returns how many values were placed. Every solution of the board is a
    /// solution of the result, and it fails only on a board with no solution.
    #[verifier::rlimit(100)]
    pub fn check_row_possible(&mut self, line: Line) -> (res: Result<usize, SolveError>)
        requires
            old(self).wf(),
            old(self).fresh(),
        ensures
            res matches Ok(n) ==> final(self).wf() && extends(final(self).data@, old(self).data@)
                && final(self).len == old(self).len + n && (n == 0 ==> *final(self) == *old(self)),
            forall|s: Seq<u8>| #[trigger]
                solves(s, old(self).data@) ==> res is Ok && solves(s, final(self).data@),
            res matches Ok(n) ==> (n == 0 <==> forall|i: int, k: int|
                0 <= i < 9 && 0 <= k < 9 ==> !#[trigger] old(self).single_flag(line, i, k)),
            res matches Ok(n) ==> n == old(self).single_count(line, 81) && old(self).hidden_placed(
                line,
                final(self).data@,
            ),
            res is Err ==> final(self).wf() && extends(final(self).data@, old(self).data@) && old(
                self,
            ).only_hidden(line, final(self).data@),
    {
        let ghost b0 = old(self).data@;
        let mut updates: usize = 0;
        let mut i: usize = 0;
        proof {
            reveal(Sudoku::placed_upto);
        }
        while i < 9
            invariant
                i <= 9,
                b0 == old(self).data@,
                old(self).wf(),
                old(self).fresh(),
                self.wf(),
                extends(self.data@, b0),
                self.len == old(self).len + updates,
                updates == 0 ==> *self == *old(self),
                forall|q: int|
                    in_board(q) && unit_of(line, q) >= i ==> #[trigger] self.data@[q] == b0[q],
                forall|q: int, k: int|
                    in_board(q) && unit_of(line, q) >= i && 0 <= k < 9 ==> #[trigger] self.grid_at(
                        q,
                        k,
                    ) == old(self).grid_at(q, k),
                forall|s: Seq<u8>| #[trigger] solves(s, b0) ==> solves(s, self.data@),
                updates == 0 ==> forall|i2: int, x: int|
                    0 <= i2 < i && 0 <= x < 9 ==> !#[trigger] old(self).single_flag(line, i2, x),
                (forall|i2: int, x: int|
                    0 <= i2 < 9 && 0 <= x < 9 ==> !#[trigger] old(self).single_flag(line, i2, x))
                    ==> updates == 0,
                updates == old(self).single_count(line, i * 9),
                old(self).placed_upto(line, self.data@, i as int, 0),
                old(self).only_hidden(line, self.data@),
            decreases 9 - i,
        {
            proof {
                lemma_line_pos(line, i as int);
            }
            let (counts, last) = self.tally(line, i);
            assert forall|x: int|
                0 <= x < 9 && #[trigger] old(self).single_flag(line, i as int, x) implies counts@[x]
                == 1 by {
                let j0 = choose|j0: int|
                    0 <= j0 < 9 && #[trigger] old(self).grid_at(line_pos(line, i as int, j0), x)
                        && forall|j: int|
                        0 <= j < 9 && j != j0 ==> !#[trigger] old(self).grid_at(
                            line_pos(line, i as int, j),
                            x,
                        );
                assert forall|j: int| 0 <= j < 9 && j != j0 implies !#[trigger] self.grid_at(
                    line_pos(line, i as int, j),
                    x,
                ) by {
                    assert(!old(self).grid_at(line_pos(line, i as int, j), x));
                }
                assert(self.grid_at(line_pos(line, i as int, j0), x));
                assert(self.single_flag(line, i as int, x));
            }
            assert forall|x: int|
                0 <= x < 9 && #[trigger] counts@[x] == 1 implies old(self).grid_at(
                line_pos(line, i as int, last@[x] as int),
                x,
            ) && forall|j: int|
                0 <= j < 9 && j != last@[x] ==> !#[trigger] old(self).grid_at(
                    line_pos(line, i as int, j),
                    x,
                ) by {
                assert(self.grid_at(line_pos(line, i as int, last@[x] as int), x));
                assert forall|j: int| 0 <= j < 9 && j != last@[x] implies !#[trigger] old(
                    self,
                ).grid_at(line_pos(line, i as int, j), x) by {
                    assert(!self.grid_at(line_pos(line, i as int, j), x));
                }
            }
            let mut k: usize = 0;
            while k < 9
                invariant
                    k <= 9,
                    i < 9,
                    b0 == old(self).data@,
                    old(self).wf(),
                    old(self).fresh(),
                    self.wf(),
                    extends(self.data@, b0),
                    self.len == old(self).len + updates,
                    updates == 0 ==> *self == *old(self),
                    counts@.len() == 9,
                    last@.len() == 9,
                    forall|x: int| 0 <= x < 9 ==> #[trigger] last@[x] < 9,
                    forall|x: int|
                        0 <= x < 9 && #[trigger] counts@[x] == 1 ==> old(self).grid_at(
                            line_pos(line, i as int, last@[x] as int),
                            x,
                        ) && forall|j: int|
                            0 <= j < 9 && j != last@[x] ==> !#[trigger] old(self).grid_at(
                                line_pos(line, i as int, j),
                                x,
                            ),
                    forall|q: int|
                        in_board(q) && unit_of(line, q) > i ==> #[trigger] self.data@[q] == b0[q],
                    forall|q: int, x: int|
                        in_board(q) && unit_of(line, q) > i && 0 <= x < 9 ==> #[trigger] self.grid_at(
                            q,
                            x,
                        ) == old(self).grid_at(q, x),
                    forall|q: int|
                        in_board(q) && unit_of(line, q) == i && #[trigger] self.data@[q] != b0[q]
                            ==> 1 <= self.data@[q] <= k,
                    forall|s: Seq<u8>| #[trigger] solves(s, b0) ==> solves(s, self.data@),
                    forall|x: int|
                        0 <= x < 9 && #[trigger] old(self).single_flag(line, i as int, x)
                            ==> counts@[x] == 1,
                    updates == 0 ==> forall|i2: int, x: int|
                        ((0 <= i2 < i && 0 <= x < 9) || (i2 == i && 0 <= x < k)) ==> !#[trigger] old(
                            self,
                        ).single_flag(line, i2, x),
                    (forall|i2: int, x: int|
                        0 <= i2 < 9 && 0 <= x < 9 ==> !#[trigger] old(self).single_flag(line, i2, x))
                        ==> updates == 0,
                    updates == old(self).single_count(line, i * 9 + k),
                    old(self).placed_upto(line, self.data@, i as int, k as int),
                    old(self).only_hidden(line, self.data@),
                decreases 9 - k,
            {
                proof {
                    lemma_position(i as int, k as int);
                }
                if counts[k] == 1 {
                    assert(old(self).grid_at(line_pos(line, i as int, last@[k as int] as int), k as int));
                    assert(old(self).single_flag(line, i as int, k as int));
                    let (r, c) = line_cell(line, i, last[k]);
                    let ghost e = line_pos(line, i as int, last@[k as int] as int);
                    let ghost v = k + 1;
                    proof {
                        lemma_position(r as int, c as int);
                        assert(e == r * 9 + c);
                        assert(b0[e] == 0);
                        assert forall|s: Seq<u8>| #[trigger] solves(s, b0) implies s[e] == v by {
                            assert forall|j: int|
                                0 <= j < 9 && j != last@[k as int] && b0[line_pos(line, i as int, j)]
                                    == 0 implies !is_candidate(
                                b0,
                                #[trigger] line_pos(line, i as int, j),
                                v,
                            ) by {
                                assert(!old(self).grid_at(line_pos(line, i as int, j), k as int));
                            }
                            assert(old(self).grid_at(e, k as int));
                            lemma_hidden_single(b0, s, line, i as int, last@[k as int] as int, v);
                        }
                    }
                    if self.data[r * 9 + c] != 0 {
                        proof {
                            assert forall|s: Seq<u8>| #[trigger] solves(s, b0) implies false by {
                                assert(solves(s, self.data@));
                                assert(self.data@[e] == s[e]);
                            }
                        }
                        return Err(SolveError::Contradiction { value: (k + 1) as u8 });
                    }
                    let ghost before = *self;
                    proof {
                        lemma_count_filled_bound(self.data@);
                    }
                    match self.set(r, c, (k + 1) as u8) {
                        Err(err) => {
                            proof {
                                assert forall|s: Seq<u8>| #[trigger] solves(s, b0) implies false by {
                                    assert(solves(s, before.data@));
                                    lemma_solution_candidate(s, before.data@, e);
                                }
                            }
                            return Err(err);
                        },
                        Ok(()) => {},
                    }
                    proof {
                        assert(extends(self.data@, before.data@));
                        assert forall|s: Seq<u8>| #[trigger] solves(s, b0) implies solves(
                            s,
                            self.data@,
                        ) by {
                            assert(solves(s, before.data@));
                            assert(s[e] == v);
                        }
                        assert forall|q: int| in_board(q) && unit_of(line, q) > i implies #[trigger] self.data@[q] == b0[q] by {
                            if q == e {
                                assert(unit_of(line, e) == i);
                            }
                        }
                        assert forall|q: int, x: int|
                            in_board(q) && unit_of(line, q) > i && 0 <= x < 9 implies #[trigger] self.grid_at(
                            q,
                            x,
                        ) == old(self).grid_at(q, x) by {
                            if q == e {
                                assert(unit_of(line, e) == i);
                            }
                            assert(before.grid_at(q, x) == old(self).grid_at(q, x));
                        }
                    }
                    proof {
                        old(self).lemma_place_step(line, before.data@, self.data@, i as int, k as int, e);
                    }
                    updates = updates + 1;
                } else {
                    proof {
                        old(self).lemma_skip_step(line, self.data@, i as int, k as int);
                    }
                }
                k = k + 1;
            }
            proof {
                reveal(Sudoku::placed_upto);
            }
            i = i + 1;
        }
        proof {
            reveal(Sudoku::placed_upto);
            assert forall|q: int, x: int|
                in_board(q) && 0 <= x < 9 && #[trigger] old(self).single_at(line, q, x) implies self.data@[q]
                == x + 1 by {
                assert(unit_of(line, q) < 9);
            }
        }
        Ok(updates)
    }

    /// One round of propagation: places every naked single; if there is
    /// none, the hidden singles by row; if none, by column; if none, by box.
    /// A blank cell without candidates is a dead end. Returns how many values
    /// were placed; with none, the board is left as it was. Every solution of
    /// the board is a solution of the result, and it fails only on a board
    /// with no solution.
    pub fn loop_over(&mut self) -> (res: Result<usize, SolveError>)
        requires
            old(self).wf(),
            old(self).fresh(),
        ensures
            res matches Ok(n) ==> final(self).wf() && extends(final(self).data@, old(self).data@)
                && final(self).len == old(self).len + n && (n == 0 ==> *final(self) == *old(self)),
            forall|s: Seq<u8>| #[trigger]
                solves(s, old(self).data@) ==> res is Ok && solves(s, final(self).data@),
            res matches Ok(n) ==> (n == 0 <==> old(self).stalled()),
            old(self).has_dead_cell() || old(self).naked_clash() ==> res is Err,
            res matches Ok(n) ==> (old(self).naked_count(81) > 0 ==> n == old(self).naked_count(81)
                && old(self).naked_placed(final(self).data@)),
            res matches Ok(n) ==> (old(self).naked_count(81) == 0 && old(self).single_count(
                Line::Row,
                81,
            ) > 0 ==> n == old(self).single_count(Line::Row, 81) && old(self).hidden_placed(
                Line::Row,
                final(self).data@,
            )),
            res matches Ok(n) ==> (old(self).naked_count(81) == 0 && old(self).single_count(
                Line::Row,
                81,
            ) == 0 && old(self).single_count(Line::Column, 81) > 0 ==> n == old(self).single_count(
                Line::Column,
                81,
            ) && old(self).hidden_placed(Line::Column, final(self).data@)),
            res matches Ok(n) ==> (old(self).naked_count(81) == 0 && old(self).single_count(
                Line::Row,
                81,
            ) == 0 && old(self).single_count(Line::Column, 81) == 0 ==> n == old(self).single_count(
                Line::Box,
                81,
            ) && old(self).hidden_placed(Line::Box, final(self).data@)),
    {
        let ghost b0 = old(self).data@;
        proof {
            reveal(Sudoku::naked_upto);
        }
        let mut updates: usize = 0;
        let mut p: usize = 0;
        while p < 81
            invariant
                p <= 81,
                b0 == old(self).data@,
                old(self).wf(),
                old(self).fresh(),
                self.wf(),
                extends(self.data@, b0),
                self.len == old(self).len + updates,
                updates == 0 ==> *self == *old(self),
                forall|q: int| p <= q < 81 ==> #[trigger] self.data@[q] == b0[q],
                forall|q: int, k: int|
                    p <= q < 81 && 0 <= k < 9 ==> #[trigger] self.grid_at(q, k) == old(
                        self,
                    ).grid_at(q, k),
                forall|s: Seq<u8>| #[trigger] solves(s, b0) ==> solves(s, self.data@),
                updates == 0 <==> forall|q: int|
                    0 <= q < p && b0[q] == 0 ==> #[trigger] values_of(old(self).flags(q)).len() >= 2,
                updates == old(self).naked_count(p as int),
                old(self).naked_upto(self.data@, p as int),
            decreases 81 - p,
        {
            let ghost before_data = self.data@;
            if self.data[p] == 0 {
                proof {
                    lemma_position((p / 9) as int, (p % 9) as int);
                }
                let presense = self.flags_at(p);
                assert(presense@ =~= old(self).flags(p as int));
                let possible = presense_array_to_vec(&presense);
                proof {
                    lemma_values_of(presense@);
                    assert forall|s: Seq<u8>| #[trigger] solves(s, b0) implies possible@.contains(
                        s[p as int],
                    ) by {
                        lemma_solution_candidate(s, b0, p as int);
                        assert(presense@[s[p as int] - 1]);
                        assert((s[p as int] - 1 + 1) as u8 == s[p as int]);
                    }
                }
                if possible.len() == 0 {
                    proof {
                        assert forall|s: Seq<u8>| #[trigger] solves(s, b0) implies false by {
                            assert(possible@.contains(s[p as int]));
                        }
                    }
                    return Err(SolveError::DeadEnd { row: p / 9, col: p % 9 });
                } else if possible.len() == 1 {
                    let ghost before = *self;
                    proof {
                        lemma_count_filled_bound(self.data@);
                        assert(1 <= possible@[0] <= 9);
                        assert forall|s: Seq<u8>| #[trigger] solves(s, b0) implies s[p as int]
                            == possible@[0] by {
                            assert(possible@.contains(s[p as int]));
                        }
                    }
                    match self.set(p / 9, p % 9, possible[0]) {
                        Err(err) => {
                            proof {
                                assert forall|s: Seq<u8>| #[trigger] solves(s, b0) implies false by {
                                    assert(solves(s, before.data@));
                                    lemma_solution_candidate(s, before.data@, p as int);
                                }
                            }
                            return Err(err);
                        },
                        Ok(()) => {},
                    }
                    proof {
                        assert(extends(self.data@, before.data@));
                        assert forall|s: Seq<u8>| #[trigger] solves(s, b0) implies solves(
                            s,
                            self.data@,
                        ) by {
                            assert(solves(s, before.data@));
                        }
                        assert forall|q: int, k: int|
                            p + 1 <= q < 81 && 0 <= k < 9 implies #[trigger] self.grid_at(q, k)
                            == old(self).grid_at(q, k) by {
                            assert(before.grid_at(q, k) == old(self).grid_at(q, k));
                        }
                    }
                    updates = updates + 1;
                    assert(b0[p as int] == 0 && values_of(old(self).flags(p as int)).len() < 2);
                }
                proof {
                    old(self).lemma_naked_step(before_data, self.data@, p as int);
                }
            } else {
                proof {
                    old(self).lemma_naked_step(before_data, self.data@, p as int);
                }
            }
            p = p + 1;
        }
        proof {
            reveal(Sudoku::naked_upto);
            assert(!old(self).has_dead_cell());
            assert(!old(self).naked_clash());
            assert(updates > 0 ==> old(self).naked_placed(self.data@));
        }
        let ghost naked = updates == 0;
        let ghost singles = forall|line: Line, i: int, k: int|
            0 <= i < 9 && 0 <= k < 9 ==> !#[trigger] old(self).single_flag(line, i, k);
        let ghost by_row = forall|i: int, k: int|
            0 <= i < 9 && 0 <= k < 9 ==> !#[trigger] old(self).single_flag(Line::Row, i, k);
        let ghost by_col = forall|i: int, k: int|
            0 <= i < 9 && 0 <= k < 9 ==> !#[trigger] old(self).single_flag(Line::Column, i, k);
        let ghost by_box = forall|i: int, k: int|
            0 <= i < 9 && 0 <= k < 9 ==> !#[trigger] old(self).single_flag(Line::Box, i, k);
        proof {
            if by_row && by_col && by_box {
                assert forall|line: Line, i: int, k: int|
                    0 <= i < 9 && 0 <= k < 9 implies !#[trigger] old(self).single_flag(line, i, k) by {
                    match line {
                        Line::Row => assert(!old(self).single_flag(Line::Row, i, k)),
                        Line::Column => assert(!old(self).single_flag(Line::Column, i, k)),
                        Line::Box => assert(!old(self).single_flag(Line::Box, i, k)),
                    }
                }
            }
            assert(singles == (by_row && by_col && by_box));
            assert(old(self).stalled() == (naked && singles));
        }
        if updates == 0 {
            updates = self.check_row_possible(Line::Row)?;
        }
        assert(updates == 0 <==> naked && by_row);
        if updates == 0 {
            updates = self.check_row_possible(Line::Column)?;
        }
        assert(updates == 0 <==> naked && by_row && by_col);
        if updates == 0 {
            updates = self.check_row_possible(Line::Box)?;
        }
        assert(updates == 0 <==> naked && by_row && by_col && by_box);
        Ok(updates)
    }
}

impl Sudoku {
    /// Solves the board: propagates until no rule places a value, then, if
    /// blanks remain, guesses each candidate of the cell with the fewest and
    /// recurses on a copy. `Ok(None)`: this board itself is now solved.
    /// `Ok(Some(u))`: `u` is a solved copy. Either way the solution keeps
    /// every value of the board as it was given. It fails exactly when the
    /// board has no solution.
    pub fn solve(&mut self) -> (res: Result<Option<Sudoku>, SolveError>)
        requires
            old(self).wf(),
            old(self).fresh(),
        ensures
            complete(old(self).data@) ==> res is Ok && res.unwrap() is None && *final(self)
                == *old(self),
            res matches Ok(None) ==> final(self).wf() && solves(final(self).data@, old(self).data@),
            res matches Ok(Some(u)) ==> u.wf() && solves(u.data@, old(self).data@),
            res matches Ok(Some(_)) ==> final(self).stalled() && !complete(final(self).data@),
            old(self).stalled() && !complete(old(self).data@) ==> !(res matches Ok(None)),
            forall|s: Seq<u8>| #[trigger] solves(s, old(self).data@) ==> res is Ok,
        decreases 81 - old(self).len,
    {
        proof {
            lemma_count_filled_bound(self.data@);
        }
        while !self.done()
            invariant
                self.wf(),
                self.fresh(),
                extends(self.data@, old(self).data@),
                old(self).len <= self.len <= 81,
                complete(old(self).data@) ==> *self == *old(self),
                old(self).stalled() && !complete(old(self).data@) ==> *self == *old(self),
                forall|s: Seq<u8>| #[trigger] solves(s, old(self).data@) ==> solves(s, self.data@),
            ensures
                self.wf(),
                self.fresh(),
                extends(self.data@, old(self).data@),
                old(self).len <= self.len <= 81,
                complete(old(self).data@) ==> *self == *old(self),
                old(self).stalled() && !complete(old(self).data@) ==> *self == *old(self),
                forall|s: Seq<u8>| #[trigger] solves(s, old(self).data@) ==> solves(s, self.data@),
                complete(self.data@) || self.stalled(),
            decreases 81 - self.len,
        {
            let ghost before = self.data@;
            let updates = match self.loop_over() {
                Ok(n) => n,
                Err(e) => {
                    proof {
                        assert forall|s: Seq<u8>| #[trigger] solves(s, old(self).data@) implies false by {
                            assert(solves(s, before));
                        }
                    }
                    return Err(e);
                },
            };
            proof {
                lemma_count_filled_bound(self.data@);
            }
            if updates == 0 {
                break;
            }
            self.update_grid();
        }
        if self.done() {
            return Ok(None);
        }
        proof {
            lemma_count_filled_bound(self.data@);
        }
        let (r, c, options) = self.find_loc_with_minimal_possiblities();
        proof {
            lemma_values_of(self.flags(r * 9 + c));
        }
        let mut i: usize = 0;
        while i < options.len()
            invariant
                self.wf(),
                extends(self.data@, old(self).data@),
                old(self).len <= self.len < 81,
                r < 9,
                c < 9,
                self.data@[r * 9 + c] == 0,
                !complete(old(self).data@),
                self.fresh(),
                self.stalled(),
                !complete(self.data@),
                options@ == values_of(self.flags(r * 9 + c)),
                forall|x: int| 0 <= x < options@.len() ==> 1 <= #[trigger] options@[x] <= 9,
                i <= options@.len(),
                forall|s: Seq<u8>| #[trigger] solves(s, old(self).data@) ==> solves(s, self.data@),
                forall|s: Seq<u8>| #[trigger]
                    solves(s, old(self).data@) ==> forall|x: int|
                        0 <= x < i ==> #[trigger] options@[x] != s[r * 9 + c],
            decreases options.len() - i,
        {
            let opt = options[i];
            let ghost p = r * 9 + c;
            proof {
                assert forall|s: Seq<u8>| #[trigger] solves(s, old(self).data@) && s[p] == opt implies solves(
                    s,
                    self.data@.update(p, opt),
                ) && is_candidate(self.data@, p, opt as int) by {
                    assert(solves(s, self.data@));
                    lemma_solution_candidate(s, self.data@, p);
                }
            }
            i = i + 1;
            match self.new_with(r, c, opt) {
                Err(_) => {},
                Ok(mut n) => {
                    assert(extends(n.data@, old(self).data@));
                    match n.solve() {
                        Err(_) => {},
                        Ok(Some(u)) => {
                            return Ok(Some(u));
                        },
                        Ok(None) => {
                            return Ok(Some(n));
                        },
                    }
                },
            }
        }
        proof {
            assert forall|s: Seq<u8>| #[trigger] solves(s, old(self).data@) implies false by {
                let p = r * 9 + c;
                assert(solves(s, self.data@));
                lemma_solution_candidate(s, self.data@, p);
                assert(self.grid_at(p, s[p] - 1));
                assert(self.flags(p)[s[p] - 1] == self.grid_at(p, s[p] - 1));
                assert(options@.contains(s[p]));
            }
        }
        Err(SolveError::DeadEnd { row: r, col: c })
    }
}

} // verus!
