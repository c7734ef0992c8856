use vstd::prelude::*;
use crate::error::SolveError;
use crate::rules::consistent;
use crate::board::Sudoku;

verus! {

/// The cell values written in `t`: newlines are skipped, each digit `0` to
/// `9` is one cell; any other character makes the text unreadable.
pub open spec fn parse_digits(t: Seq<char>) -> Option<Seq<u8>>
    decreases t.len(),
{
    if t.len() == 0 {
        Some(Seq::empty())
    } else {
        match parse_digits(t.drop_last()) {
            None => None,
            Some(d) => {
                let ch = t.last();
                if ch == '\n' {
                    Some(d)
                } else if '0' <= ch <= '9' {
                    Some(d.push((ch as u32 - '0' as u32) as u8))
                } else {
                    None
                }
            },
        }
    }
}

proof fn lemma_parse_digits_bound(t: Seq<char>)
    requires
        parse_digits(t) is Some,
    ensures
        parse_digits(t).unwrap().len() <= t.len(),
        forall|i: int|
            0 <= i < parse_digits(t).unwrap().len() ==> #[trigger] parse_digits(t).unwrap()[i]
                <= 9,
    decreases t.len(),
{
    if t.len() > 0 {
        lemma_parse_digits_bound(t.drop_last());
    }
}

impl Sudoku {
    /// Reads a puzzle written as 81 digits (row-major, `0` for blank),
    /// newlines ignored, places its givens and computes the candidates.
    /// Text that is not exactly 81 digits is bad input; givens that repeat a
    /// value within a unit are a contradiction.
    pub fn from_str(s: &str) -> (res: Result<Sudoku, SolveError>)
        ensures
            res is Ok <==> (parse_digits(s@) matches Some(d) && d.len() == 81 && consistent(d)),
            res matches Err(SolveError::BadInput { .. }) <==> !(parse_digits(s@) matches Some(d)
                && d.len() == 81),
            res matches Ok(b) ==> b.wf() && b.fresh() && Some(b.data@) == parse_digits(s@),
    {
        let n = s.unicode_len();
        let mut cells: Vec<u8> = Vec::new();
        let mut i: usize = 0;
        while i < n
            invariant
                i <= n,
                n == s@.len(),
                parse_digits(s@.subrange(0, i as int)) == Some(cells@),
            decreases n - i,
        {
            let ch = s.get_char(i);
            assert(s@.subrange(0, i + 1).drop_last() =~= s@.subrange(0, i as int));
            if ch == '\n' {
            } else if '0' <= ch && ch <= '9' {
                cells.push((ch as u32 - '0' as u32) as u8);
            } else {
                proof {
                    lemma_parse_digits_prefix_none(s@, i + 1);
                }
                return Err(SolveError::BadInput { index: cells.len() });
            }
            i = i + 1;
        }
        assert(s@.subrange(0, n as int) =~= s@);
        proof {
            lemma_parse_digits_bound(s@);
        }
        if cells.len() != 81 {
            return Err(SolveError::BadInput { index: cells.len() });
        }
        Sudoku::from_cells(&cells)
    }
}

/// Once a prefix of the text is unreadable, so is the whole text.
proof fn lemma_parse_digits_prefix_none(t: Seq<char>, k: int)
    requires
        0 <= k <= t.len(),
        parse_digits(t.subrange(0, k)) is None,
    ensures
        parse_digits(t) is None,
    decreases t.len() - k,
{
    if k < t.len() {
        assert(t.subrange(0, k + 1).drop_last() =~= t.subrange(0, k));
        lemma_parse_digits_prefix_none(t, k + 1);
    } else {
        assert(t.subrange(0, k) =~= t);
    }
}

} // verus!
