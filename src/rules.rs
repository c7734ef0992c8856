use vstd::prelude::*;

verus! {

/// Row of board position `p` (positions are row-major, 0 to 80).
pub open spec fn row_of(p: int) -> int {
    p / 9
}

/// Column of board position `p`.
pub open spec fn col_of(p: int) -> int {
    p % 9
}

/// Box of board position `p`, boxes numbered row-major.
pub open spec fn box_of(p: int) -> int {
    (p / 27) * 3 + (p % 9) / 3
}

/// Two distinct positions that share a row, a column or a box.
pub open spec fn peers(p: int, q: int) -> bool {
    p != q && (row_of(p) == row_of(q) || col_of(p) == col_of(q) || box_of(p) == box_of(q))
}

pub open spec fn in_board(p: int) -> bool {
    0 <= p < 81
}

/// Row `u` of board `b` holds value `v`.
pub open spec fn row_has(b: Seq<u8>, u: int, v: int) -> bool {
    exists|q: int| in_board(q) && row_of(q) == u && #[trigger] b[q] == v
}

/// Column `u` of board `b` holds value `v`.
pub open spec fn col_has(b: Seq<u8>, u: int, v: int) -> bool {
    exists|q: int| in_board(q) && col_of(q) == u && #[trigger] b[q] == v
}

/// Box `u` of board `b` holds value `v`.
pub open spec fn box_has(b: Seq<u8>, u: int, v: int) -> bool {
    exists|q: int| in_board(q) && box_of(q) == u && #[trigger] b[q] == v
}

/// Value `v` may be written at position `p` of `b`: the cell is blank and
/// none of its three units holds `v` yet.
pub open spec fn is_candidate(b: Seq<u8>, p: int, v: int) -> bool {
    b[p] == 0 && !row_has(b, row_of(p), v) && !col_has(b, col_of(p), v) && !box_has(
        b,
        box_of(p),
        v,
    )
}

/// 81 cells, each blank (0) or holding a value 1 to 9.
pub open spec fn is_board(b: Seq<u8>) -> bool {
    b.len() == 81 && forall|p: int| 0 <= p < 81 ==> #[trigger] b[p] <= 9
}

/// No unit of `b` holds one value twice.
pub open spec fn consistent(b: Seq<u8>) -> bool {
    forall|p: int, q: int|
        in_board(p) && in_board(q) && peers(p, q) && #[trigger] b[p] != 0 ==> b[p] != #[trigger] b[q]
}

/// Every cell of `b` holds a value from 1 to 9.
pub open spec fn complete(b: Seq<u8>) -> bool {
    forall|p: int| 0 <= p < 81 ==> 1 <= #[trigger] b[p] <= 9
}

/// A finished grid: complete, and no unit holds a value twice.
pub open spec fn valid_solution(b: Seq<u8>) -> bool {
    is_board(b) && complete(b) && consistent(b)
}

/// `b` keeps every value that `a` has placed.
pub open spec fn extends(b: Seq<u8>, a: Seq<u8>) -> bool {
    b.len() == a.len() && forall|p: int| 0 <= p < a.len() && #[trigger] a[p] != 0 ==> b[p] == a[p]
}

/// `s` is a solution of the puzzle `b`.
pub open spec fn solves(s: Seq<u8>, b: Seq<u8>) -> bool {
    valid_solution(s) && extends(s, b)
}

/// Number of filled cells of `b`.
pub open spec fn count_filled(b: Seq<u8>) -> nat
    decreases b.len(),
{
    if b.len() == 0 {
        0
    } else {
        count_filled(b.drop_last()) + if b.last() != 0 {
            1nat
        } else {
            0nat
        }
    }
}

pub proof fn lemma_count_filled_bound(b: Seq<u8>)
    ensures
        count_filled(b) <= b.len(),
        count_filled(b) == b.len() ==> forall|p: int| 0 <= p < b.len() ==> #[trigger] b[p] != 0,
    decreases b.len(),
{
    if b.len() > 0 {
        lemma_count_filled_bound(b.drop_last());
        assert forall|p: int| 0 <= p < b.len() && count_filled(b) == b.len() implies #[trigger] b[p]
            != 0 by {
            if p < b.len() - 1 {
                assert(b.drop_last()[p] == b[p]);
            }
        }
    }
}

pub proof fn lemma_count_filled_update(b: Seq<u8>, p: int, v: u8)
    requires
        0 <= p < b.len(),
        b[p] == 0,
        v != 0,
    ensures
        count_filled(b.update(p, v)) == count_filled(b) + 1,
    decreases b.len(),
{
    let c = b.update(p, v);
    if p == b.len() - 1 {
        assert(c.drop_last() =~= b.drop_last());
    } else {
        assert(c.drop_last() =~= b.drop_last().update(p, v));
        lemma_count_filled_update(b.drop_last(), p, v);
    }
}

/// Number of `true` entries of `s`.
pub open spec fn count_true(s: Seq<bool>) -> nat
    decreases s.len(),
{
    if s.len() == 0 {
        0
    } else {
        count_true(s.drop_last()) + if s.last() {
            1nat
        } else {
            0nat
        }
    }
}

pub proof fn lemma_count_true_update(s: Seq<bool>, i: int)
    requires
        0 <= i < s.len(),
        !s[i],
    ensures
        count_true(s.update(i, true)) == count_true(s) + 1,
    decreases s.len(),
{
    let c = s.update(i, true);
    if i == s.len() - 1 {
        assert(c.drop_last() =~= s.drop_last());
    } else {
        assert(c.drop_last() =~= s.drop_last().update(i, true));
        lemma_count_true_update(s.drop_last(), i);
    }
}

pub proof fn lemma_count_true_bound(s: Seq<bool>)
    ensures
        count_true(s) <= s.len(),
    decreases s.len(),
{
    if s.len() > 0 {
        lemma_count_true_bound(s.drop_last());
    }
}

pub proof fn lemma_count_true_none(s: Seq<bool>)
    requires
        forall|i: int| 0 <= i < s.len() ==> !#[trigger] s[i],
    ensures
        count_true(s) == 0,
    decreases s.len(),
{
    if s.len() > 0 {
        lemma_count_true_none(s.drop_last());
    }
}

/// Position of the cell at row `r`, column `c`, and its three units.
pub proof fn lemma_position(r: int, c: int)
    requires
        0 <= r < 9,
        0 <= c < 9,
    ensures
        in_board(r * 9 + c),
        row_of(r * 9 + c) == r,
        col_of(r * 9 + c) == c,
        box_of(r * 9 + c) == (r / 3) * 3 + c / 3,
{
    assert((r * 9 + c) / 9 == r && (r * 9 + c) % 9 == c) by (nonlinear_arith)
        requires
            0 <= r < 9,
            0 <= c < 9,
    ;
    assert((r * 9 + c) / 27 == r / 3) by (nonlinear_arith)
        requires
            0 <= r < 9,
            0 <= c < 9,
    ;
}

/// Writing `val` into the blank cell `p` adds `val` to the three units of `p`
/// and to no others.
pub proof fn lemma_has_update(b: Seq<u8>, p: int, val: u8)
    requires
        b.len() == 81,
        in_board(p),
        b[p] == 0,
        val != 0,
    ensures
        forall|u: int, v: int|
            v != 0 ==> (#[trigger] row_has(b.update(p, val), u, v) <==> (row_has(b, u, v) || (u
                == row_of(p) && v == val))),
        forall|u: int, v: int|
            v != 0 ==> (#[trigger] col_has(b.update(p, val), u, v) <==> (col_has(b, u, v) || (u
                == col_of(p) && v == val))),
        forall|u: int, v: int|
            v != 0 ==> (#[trigger] box_has(b.update(p, val), u, v) <==> (box_has(b, u, v) || (u
                == box_of(p) && v == val))),
{
    let n = b.update(p, val);
    assert forall|u: int, v: int| v != 0 implies (#[trigger] row_has(n, u, v) <==> (row_has(b, u, v)
        || (u == row_of(p) && v == val))) by {
        if row_has(b, u, v) {
            let q = choose|q: int| in_board(q) && row_of(q) == u && #[trigger] b[q] == v;
            assert(n[q] == v);
        }
        if u == row_of(p) && v == val {
            assert(n[p] == v);
        }
        if row_has(n, u, v) {
            let q = choose|q: int| in_board(q) && row_of(q) == u && #[trigger] n[q] == v;
            if q != p {
                assert(b[q] == v);
            }
        }
    }
    assert forall|u: int, v: int| v != 0 implies (#[trigger] col_has(n, u, v) <==> (col_has(b, u, v)
        || (u == col_of(p) && v == val))) by {
        if col_has(b, u, v) {
            let q = choose|q: int| in_board(q) && col_of(q) == u && #[trigger] b[q] == v;
            assert(n[q] == v);
        }
        if u == col_of(p) && v == val {
            assert(n[p] == v);
        }
        if col_has(n, u, v) {
            let q = choose|q: int| in_board(q) && col_of(q) == u && #[trigger] n[q] == v;
            if q != p {
                assert(b[q] == v);
            }
        }
    }
    assert forall|u: int, v: int| v != 0 implies (#[trigger] box_has(n, u, v) <==> (box_has(b, u, v)
        || (u == box_of(p) && v == val))) by {
        if box_has(b, u, v) {
            let q = choose|q: int| in_board(q) && box_of(q) == u && #[trigger] b[q] == v;
            assert(n[q] == v);
        }
        if u == box_of(p) && v == val {
            assert(n[p] == v);
        }
        if box_has(n, u, v) {
            let q = choose|q: int| in_board(q) && box_of(q) == u && #[trigger] n[q] == v;
            if q != p {
                assert(b[q] == v);
            }
        }
    }
}

/// A consistent board stays consistent when a candidate is written into it.
pub proof fn lemma_consistent_update(b: Seq<u8>, p: int, val: u8)
    requires
        b.len() == 81,
        consistent(b),
        in_board(p),
        val != 0,
        is_candidate(b, p, val as int),
    ensures
        consistent(b.update(p, val)),
{
    let n = b.update(p, val);
    assert forall|x: int, y: int|
        in_board(x) && in_board(y) && peers(x, y) && #[trigger] n[x] != 0 implies n[x]
        != #[trigger] n[y] by {
        if x == p && n[y] == val {
            assert(b[y] == val);
        } else if y == p && n[x] == val {
            assert(b[x] == val);
        } else if x != p && y != p {
            assert(b[x] != 0 && b[x] != b[y]);
        }
    }
}

pub proof fn lemma_count_filled_zero(b: Seq<u8>)
    requires
        forall|p: int| 0 <= p < b.len() ==> #[trigger] b[p] == 0,
    ensures
        count_filled(b) == 0,
    decreases b.len(),
{
    if b.len() > 0 {
        lemma_count_filled_zero(b.drop_last());
    }
}

/// Distinct cells own disjoint slices of nine entries.
pub proof fn lemma_index_distinct(q: int, j: int, p: int, k: int)
    requires
        q != p,
        0 <= j < 9,
        0 <= k < 9,
    ensures
        q * 9 + j != p * 9 + k,
        q * 9 + j < p * 9 || q * 9 + j >= p * 9 + 9,
{
    if q < p {
        assert(q * 9 + 9 <= p * 9) by (nonlinear_arith)
            requires
                q < p,
        ;
    } else {
        assert(p * 9 + 9 <= q * 9) by (nonlinear_arith)
            requires
                p < q,
        ;
    }
}

pub proof fn lemma_count_filled_all(b: Seq<u8>)
    requires
        forall|p: int| 0 <= p < b.len() ==> #[trigger] b[p] != 0,
    ensures
        count_filled(b) == b.len(),
    decreases b.len(),
{
    if b.len() > 0 {
        lemma_count_filled_all(b.drop_last());
    }
}

/// The values flagged in `s`, ascending: value `k + 1` for each entry `k`
/// that holds.
pub open spec fn values_of(s: Seq<bool>) -> Seq<u8>
    decreases s.len(),
{
    if s.len() == 0 {
        Seq::empty()
    } else {
        values_of(s.drop_last()) + if s.last() {
            seq![s.len() as u8]
        } else {
            Seq::empty()
        }
    }
}

pub proof fn lemma_values_of(s: Seq<bool>)
    requires
        s.len() <= 9,
    ensures
        values_of(s).len() == count_true(s),
        forall|i: int|
            0 <= i < values_of(s).len() ==> 1 <= #[trigger] values_of(s)[i] <= s.len() && s[values_of(
                s,
            )[i] - 1],
        forall|k: int| 0 <= k < s.len() && #[trigger] s[k] ==> values_of(s).contains((k + 1) as u8),
        forall|i: int, j: int|
            0 <= i < j < values_of(s).len() ==> #[trigger] values_of(s)[i] < #[trigger] values_of(
                s,
            )[j],
    decreases s.len(),
{
    if s.len() > 0 {
        let t = s.drop_last();
        lemma_values_of(t);
        let a = values_of(t);
        let v = values_of(s);
        assert forall|k: int| 0 <= k < s.len() && #[trigger] s[k] implies v.contains(
            (k + 1) as u8,
        ) by {
            if k < s.len() - 1 {
                assert(t[k]);
                let i = choose|i: int| 0 <= i < a.len() && a[i] == (k + 1) as u8;
                assert(v[i] == a[i]);
            } else {
                assert(v[v.len() - 1] == s.len() as u8);
            }
        }
        assert forall|i: int| 0 <= i < v.len() implies 1 <= #[trigger] v[i] <= s.len() && s[v[i]
            - 1] by {
            if i < a.len() {
                assert(v[i] == a[i]);
                assert(t[a[i] - 1]);
            }
        }
    }
}

/// A blank cell of a board whose values all agree with a consistent board
/// `full` can take the value that `full` has there.
pub proof fn lemma_sub_candidate(full: Seq<u8>, part: Seq<u8>, q: int)
    requires
        full.len() == 81,
        part.len() == 81,
        consistent(full),
        forall|x: int| 0 <= x < 81 ==> #[trigger] part[x] == 0 || part[x] == full[x],
        in_board(q),
        full[q] != 0,
        part[q] == 0,
    ensures
        is_candidate(part, q, full[q] as int),
{
    let v = full[q] as int;
    if row_has(part, row_of(q), v) {
        let x = choose|x: int| in_board(x) && row_of(x) == row_of(q) && #[trigger] part[x] == v;
        assert(part[x] == 0 || part[x] == full[x]);
        assert(peers(q, x));
    }
    if col_has(part, col_of(q), v) {
        let x = choose|x: int| in_board(x) && col_of(x) == col_of(q) && #[trigger] part[x] == v;
        assert(part[x] == 0 || part[x] == full[x]);
        assert(peers(q, x));
    }
    if box_has(part, box_of(q), v) {
        let x = choose|x: int| in_board(x) && box_of(x) == box_of(q) && #[trigger] part[x] == v;
        assert(part[x] == 0 || part[x] == full[x]);
        assert(peers(q, x));
    }
}

/// The three kinds of unit that hidden singles are sought in.
#[derive(Debug, Clone, Copy, PartialEq, Eq, Structural)]
pub enum Line {
    Row,
    Column,
    Box,
}

/// Row and column of the `j`-th cell of unit `i` of kind `line`.
pub open spec fn line_rc(line: Line, i: int, j: int) -> (int, int) {
    match line {
        Line::Row => (i, j),
        Line::Column => (j, i),
        Line::Box => ((i / 3) * 3 + j / 3, (i % 3) * 3 + j % 3),
    }
}

/// Position of the `j`-th cell of unit `i` of kind `line`.
pub open spec fn line_pos(line: Line, i: int, j: int) -> int {
    line_rc(line, i, j).0 * 9 + line_rc(line, i, j).1
}

/// Which unit of kind `line` holds position `p`.
pub open spec fn unit_of(line: Line, p: int) -> int {
    match line {
        Line::Row => row_of(p),
        Line::Column => col_of(p),
        Line::Box => box_of(p),
    }
}

/// The nine cells of unit `i` of kind `line` are distinct positions of
/// that unit, and every position of the unit is one of them.
#[verifier::rlimit(50)]
pub proof fn lemma_line_pos(line: Line, i: int)
    requires
        0 <= i < 9,
    ensures
        forall|j: int|
            0 <= j < 9 ==> in_board(#[trigger] line_pos(line, i, j)) && unit_of(
                line,
                line_pos(line, i, j),
            ) == i,
        forall|j: int, k: int|
            0 <= j < 9 && 0 <= k < 9 && j != k ==> #[trigger] line_pos(line, i, j)
                != #[trigger] line_pos(line, i, k),
        forall|q: int|
            in_board(q) && #[trigger] unit_of(line, q) == i ==> exists|j: int|
                0 <= j < 9 && #[trigger] line_pos(line, i, j) == q,
{
    assert forall|j: int| 0 <= j < 9 implies in_board(#[trigger] line_pos(line, i, j)) && unit_of(
        line,
        line_pos(line, i, j),
    ) == i by {
        let (r, c) = line_rc(line, i, j);
        lemma_position(r, c);
    }
    assert forall|j: int, k: int| 0 <= j < 9 && 0 <= k < 9 && j != k implies #[trigger] line_pos(
        line,
        i,
        j,
    ) != #[trigger] line_pos(line, i, k) by {
        let (r, c) = line_rc(line, i, j);
        let (r2, c2) = line_rc(line, i, k);
        lemma_position(r, c);
        lemma_position(r2, c2);
    }
    assert forall|q: int| in_board(q) && #[trigger] unit_of(line, q) == i implies exists|j: int|
        0 <= j < 9 && #[trigger] line_pos(line, i, j) == q by {
        let j = match line {
            Line::Row => col_of(q),
            Line::Column => row_of(q),
            Line::Box => (row_of(q) % 3) * 3 + col_of(q) % 3,
        };
        let (r, c) = line_rc(line, i, j);
        lemma_position(r, c);
        assert(line_pos(line, i, j) == q);
    }
}

/// A solution's value at a blank cell is a candidate there.
pub proof fn lemma_solution_candidate(s: Seq<u8>, b: Seq<u8>, p: int)
    requires
        solves(s, b),
        b.len() == 81,
        in_board(p),
        b[p] == 0,
    ensures
        is_candidate(b, p, s[p] as int),
        1 <= s[p] <= 9,
{
    assert forall|x: int| 0 <= x < 81 implies #[trigger] b[x] == 0 || b[x] == s[x] by {
        if b[x] != 0 {
            assert(s[x] == b[x]);
        }
    }
    lemma_sub_candidate(s, b, p);
}

} // verus!
