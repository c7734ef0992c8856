use vstd::prelude::*;
use vstd::relations::injective_on;
use vstd::set_lib::{lemma_int_range, lemma_map_size, lemma_subset_equality, set_int_range};
use crate::rules::{
    box_has, box_of, col_has, col_of, complete, consistent, in_board, is_board, is_candidate,
    lemma_line_pos, lemma_solution_candidate, line_pos, peers, row_has, row_of, solves, unit_of,
    valid_solution, Line,
};

verus! {

/// Unit `u` of kind `line` of board `b` holds value `v` in exactly one cell.
pub open spec fn holds_once(b: Seq<u8>, line: Line, u: int, v: int) -> bool {
    &&& exists|q: int| in_board(q) && unit_of(line, q) == u && #[trigger] b[q] == v
    &&& forall|x: int, y: int|
        in_board(x) && in_board(y) && unit_of(line, x) == u && unit_of(line, y) == u && #[trigger] b[x]
            == v && #[trigger] b[y] == v ==> x == y
}

/// `f` takes the value `v` on one of 0 to 8.
spec fn hit(f: spec_fn(int) -> int, v: int) -> bool {
    exists|j: int| 0 <= j < 9 && #[trigger] f(j) == v
}

/// Nine distinct values from 1 to 9 take every value from 1 to 9.
proof fn lemma_pigeonhole(f: spec_fn(int) -> int)
    requires
        forall|j: int| 0 <= j < 9 ==> 1 <= #[trigger] f(j) <= 9,
        forall|i: int, j: int| 0 <= i < 9 && 0 <= j < 9 && i != j ==> #[trigger] f(i) != #[trigger] f(j),
    ensures
        forall|v: int| 1 <= v <= 9 ==> #[trigger] hit(f, v),
{
    let x = set_int_range(0, 9);
    let y = x.map(f);
    let all = set_int_range(1, 10);
    lemma_int_range(0, 9);
    lemma_int_range(1, 10);
    assert(injective_on(f, x));
    lemma_map_size(x, y, f);
    assert forall|v: int| y.contains(v) implies all.contains(v) by {
        let j = choose|j: int| x.contains(j) && f(j) == v;
    }
    lemma_subset_equality(y, all);
    assert forall|v: int| 1 <= v <= 9 implies #[trigger] hit(f, v) by {
        assert(all.contains(v));
        assert(y.contains(v));
    }
}

/// In a finished grid, every row, column and box holds each value from 1
/// to 9 exactly once.
pub proof fn lemma_solution_units(b: Seq<u8>, line: Line, u: int, v: int)
    requires
        valid_solution(b),
        0 <= u < 9,
        1 <= v <= 9,
    ensures
        holds_once(b, line, u, v),
{
    lemma_line_pos(line, u);
    let f = |j: int| b[line_pos(line, u, j)] as int;
    assert forall|i: int, j: int| 0 <= i < 9 && 0 <= j < 9 && i != j implies #[trigger] f(i)
        != #[trigger] f(j) by {
        let p = line_pos(line, u, i);
        let q = line_pos(line, u, j);
        assert(peers(p, q));
        assert(b[p] != 0);
    }
    assert forall|j: int| 0 <= j < 9 implies 1 <= #[trigger] f(j) <= 9 by {
        assert(in_board(line_pos(line, u, j)));
    }
    lemma_pigeonhole(f);
    assert(hit(f, v));
    let j = choose|j: int| 0 <= j < 9 && #[trigger] f(j) == v;
    assert(b[line_pos(line, u, j)] == v);
    assert forall|x: int, y: int|
        in_board(x) && in_board(y) && unit_of(line, x) == u && unit_of(line, y) == u && #[trigger] b[x]
            == v && #[trigger] b[y] == v implies x == y by {
        if x != y {
            assert(peers(x, y));
        }
    }
}

/// A finished grid repeats no value in a unit and fills every cell: the two
/// conditions under which building a board from it succeeds and solving
/// that board returns it unchanged.
pub proof fn lemma_solution_round_trip(b: Seq<u8>)
    requires
        valid_solution(b),
    ensures
        consistent(b),
        complete(b),
{
}

/// Hidden single: when value `v` is a candidate at only one blank cell of a
/// unit, every solution puts `v` in that cell.
pub proof fn lemma_hidden_single(b: Seq<u8>, s: Seq<u8>, line: Line, i: int, j0: int, v: int)
    requires
        is_board(b),
        solves(s, b),
        0 <= i < 9,
        0 <= j0 < 9,
        1 <= v <= 9,
        is_candidate(b, line_pos(line, i, j0), v),
        forall|j: int|
            0 <= j < 9 && j != j0 && b[line_pos(line, i, j)] == 0 ==> !is_candidate(
                b,
                #[trigger] line_pos(line, i, j),
                v,
            ),
    ensures
        s[line_pos(line, i, j0)] == v,
{
    lemma_line_pos(line, i);
    lemma_solution_units(s, line, i, v);
    let q = choose|q: int| in_board(q) && unit_of(line, q) == i && #[trigger] s[q] == v;
    let e = line_pos(line, i, j0);
    assert(in_board(e) && unit_of(line, e) == i);
    if b[q] != 0 {
        assert(b[q] == s[q]);
        match line {
            Line::Row => assert(row_has(b, row_of(e), v)),
            Line::Column => assert(col_has(b, col_of(e), v)),
            Line::Box => assert(box_has(b, box_of(e), v)),
        }
    }
    lemma_solution_candidate(s, b, q);
    let j = choose|j: int| 0 <= j < 9 && #[trigger] line_pos(line, i, j) == q;
    if j != j0 {
        assert(!is_candidate(b, line_pos(line, i, j), v));
    }
}

/// A puzzle with a blank cell that none of the values 1 to 9 can take (its
/// row, column and box already hold them all) has no solution, so solving
/// it fails.
pub proof fn lemma_dead_cell(b: Seq<u8>, p: int)
    requires
        is_board(b),
        in_board(p),
        b[p] == 0,
        forall|v: int| 1 <= v <= 9 ==> !#[trigger] is_candidate(b, p, v),
    ensures
        forall|s: Seq<u8>| !#[trigger] solves(s, b),
{
    assert forall|s: Seq<u8>| !#[trigger] solves(s, b) by {
        if solves(s, b) {
            lemma_solution_candidate(s, b, p);
        }
    }
}

/// A puzzle with exactly one solution: every board that solves it, such as
/// one that solving returns, is that solution.
pub proof fn lemma_unique_solution(b: Seq<u8>, s: Seq<u8>, t: Seq<u8>)
    requires
        solves(s, b),
        forall|u: Seq<u8>| #[trigger] solves(u, b) ==> u == s,
        solves(t, b),
    ensures
        t == s,
{
}

} // verus!
