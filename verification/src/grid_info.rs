//! The validated grid model: parsing the textual maze description and
//! checking every rule it must obey.
//!
//! The expected layout is: a first line `row_max column_max`, a second line
//! `start_row start_column`, then one text line per grid row. Grid rows are
//! stored bottom-up: row 0 of the model is the last text line.

use vstd::prelude::*;
use crate::table::{view2, flip, sum_lens, lemma_sum_lens_congruent, lemma_sum_lens_drop_first};
use crate::text::{spec_lines, spec_tokens, is_usize_token, token_val, lemma_lines_fit, chars_of,
    split_lines, split_tokens, parse_usize};

verus! {

/// Everything that can be wrong with a maze description or a search for its
/// exit. The first violated check wins; no later check runs.
#[derive(Debug, Clone, Copy, PartialEq, Eq, Structural)]
pub enum Error {
    /// The first line does not hold exactly two fields.
    MissingRowColumnMax,
    /// A field of the first line is not a machine-sized non-negative integer.
    CastForRowColumnMax,
    /// The second line does not hold exactly two fields.
    MissingStartPos,
    /// A field of the second line is not a machine-sized non-negative integer.
    CastForStartPos,
    /// The start position lies outside the declared bounds.
    IncoherentStartPos,
    /// A grid character is none of `O`, `E`, `X`.
    UnauthorizedValue,
    /// A grid row has the wrong length, or the row count is wrong.
    IncoherentGridSize,
    /// No `X` cell exists.
    MissingExit,
    /// More than one `X` cell exists.
    TooManyExits,
    /// The start position names a closed cell.
    StartPosOnBlockedCase,
    /// The start cell is not passable, so no search can begin.
    StartUnreachable,
    /// The search exhausted every reachable cell without meeting the exit.
    NoPathFound,
    /// The walk back from the exit ran out of cells with a recorded distance.
    PathReconstructionFailed,
}

/// The parsed and validated maze: bounds, start, exit, and the grid itself,
/// one character per cell, rows stored bottom-up.
pub struct GridInfo {
    pub start_pos: (usize, usize),
    pub exit_pos: (usize, usize),
    pub row_max: usize,
    pub column_max: usize,
    pub grid: Vec<Vec<char>>,
}

pub open spec fn authorized_case(c: char) -> bool {
    c == 'O' || c == 'E' || c == 'X'
}

/// Number of exit cells in one row.
pub open spec fn count_x_row(l: Seq<char>) -> nat
    decreases l.len(),
{
    if l.len() == 0 {
        0
    } else {
        count_x_row(l.drop_last()) + (if l.last() == 'X' {
            1nat
        } else {
            0nat
        })
    }
}

/// Number of exit cells in a whole grid.
pub open spec fn count_x(g: Seq<Seq<char>>) -> nat
    decreases g.len(),
{
    if g.len() == 0 {
        0
    } else {
        count_x(g.drop_last()) + count_x_row(g.last())
    }
}

pub open spec fn chars_ok(g: Seq<Seq<char>>) -> bool {
    forall|i: int, j: int|
        0 <= i < g.len() && 0 <= j < g[i].len() ==> authorized_case(#[trigger] g[i][j])
}

pub open spec fn size_ok(g: Seq<Seq<char>>, rm: int, cm: int) -> bool {
    &&& g.len() == rm + 1
    &&& forall|i: int| 0 <= i < g.len() ==> (#[trigger] g[i]).len() == cm + 1
}

/// The first failed check over the grid rows `g`, read in text order (the
/// first row of `g` is the topmost text line).
///
/// The last check is a policy: the start must not name a closed cell. The
/// row index of the start is read here against the text lines top to bottom,
/// while the finished model stores rows bottom-up.
pub open spec fn logic_error_at(g: Seq<Seq<char>>, rm: int, cm: int, sr: int, sc: int) -> Option<
    Error,
> {
    if !(sr <= rm && sc <= cm) {
        Some(Error::IncoherentStartPos)
    } else if !chars_ok(g) {
        Some(Error::UnauthorizedValue)
    } else if !size_ok(g, rm, cm) {
        Some(Error::IncoherentGridSize)
    } else if count_x(g) == 0 {
        Some(Error::MissingExit)
    } else if count_x(g) > 1 {
        Some(Error::TooManyExits)
    } else if g[sr][sc] == 'E' {
        Some(Error::StartPosOnBlockedCase)
    } else {
        None
    }
}

pub open spec fn header_ok(ls: Seq<Seq<char>>) -> bool {
    ls.len() >= 1 && spec_tokens(ls[0]).len() == 2
}

pub open spec fn header_cast_ok(ls: Seq<Seq<char>>) -> bool {
    is_usize_token(spec_tokens(ls[0])[0]) && is_usize_token(spec_tokens(ls[0])[1])
}

pub open spec fn startline_ok(ls: Seq<Seq<char>>) -> bool {
    ls.len() >= 2 && spec_tokens(ls[1]).len() == 2
}

pub open spec fn startline_cast_ok(ls: Seq<Seq<char>>) -> bool {
    is_usize_token(spec_tokens(ls[1])[0]) && is_usize_token(spec_tokens(ls[1])[1])
}

pub open spec fn row_max_of(ls: Seq<Seq<char>>) -> int {
    token_val(spec_tokens(ls[0])[0])
}

pub open spec fn column_max_of(ls: Seq<Seq<char>>) -> int {
    token_val(spec_tokens(ls[0])[1])
}

pub open spec fn start_row_of(ls: Seq<Seq<char>>) -> int {
    token_val(spec_tokens(ls[1])[0])
}

pub open spec fn start_col_of(ls: Seq<Seq<char>>) -> int {
    token_val(spec_tokens(ls[1])[1])
}

/// The first failed check over the two header lines alone.
pub open spec fn header_error_at(ls: Seq<Seq<char>>) -> Option<Error> {
    if !header_ok(ls) {
        Some(Error::MissingRowColumnMax)
    } else if !header_cast_ok(ls) {
        Some(Error::CastForRowColumnMax)
    } else if !startline_ok(ls) {
        Some(Error::MissingStartPos)
    } else if !startline_cast_ok(ls) {
        Some(Error::CastForStartPos)
    } else {
        None
    }
}

/// The first failed check over the whole description, split into lines.
pub open spec fn grid_error_at(ls: Seq<Seq<char>>) -> Option<Error> {
    if header_error_at(ls) is Some {
        header_error_at(ls)
    } else {
        logic_error_at(ls.skip(2), row_max_of(ls), column_max_of(ls), start_row_of(ls),
            start_col_of(ls))
    }
}

/// The first failed check over the raw description.
pub open spec fn grid_error(s: Seq<char>) -> Option<Error> {
    grid_error_at(spec_lines(s))
}

/// A description is accepted exactly when its header and start line each
/// hold two machine-sized integers, the start lies within the declared
/// bounds, every grid character is authorized, the grid has the declared
/// size, exactly one exit cell exists, and the start does not name a closed
/// cell.
pub open spec fn valid_description(s: Seq<char>) -> bool {
    let ls = spec_lines(s);
    let g = ls.skip(2);
    &&& header_ok(ls)
    &&& header_cast_ok(ls)
    &&& startline_ok(ls)
    &&& startline_cast_ok(ls)
    &&& start_row_of(ls) <= row_max_of(ls)
    &&& start_col_of(ls) <= column_max_of(ls)
    &&& chars_ok(g)
    &&& size_ok(g, row_max_of(ls), column_max_of(ls))
    &&& count_x(g) == 1
    &&& g[start_row_of(ls)][start_col_of(ls)] != 'E'
}

/// Construction succeeds exactly on valid descriptions.
pub proof fn lemma_new_succeeds_iff(s: Seq<char>)
    ensures
        grid_error(s) is None <==> valid_description(s),
{
}

// ------------------------------------------------------------------
// Counting exits: prefix lemmas used by the scanning loops
// ------------------------------------------------------------------
pub proof fn lemma_count_x_row_take_step(l: Seq<char>, j: int)
    requires
        0 <= j < l.len(),
    ensures
        count_x_row(l.take(j + 1)) == count_x_row(l.take(j)) + (if l[j] == 'X' {
            1nat
        } else {
            0nat
        }),
{
    assert(l.take(j + 1).drop_last() =~= l.take(j));
    assert(l.take(j + 1).last() == l[j]);
}

pub proof fn lemma_count_x_take_step(g: Seq<Seq<char>>, i: int)
    requires
        0 <= i < g.len(),
    ensures
        count_x(g.take(i + 1)) == count_x(g.take(i)) + count_x_row(g[i]),
{
    assert(g.take(i + 1).drop_last() =~= g.take(i));
    assert(g.take(i + 1).last() == g[i]);
}

pub proof fn lemma_count_x_row_take_le(l: Seq<char>, j: int)
    requires
        0 <= j <= l.len(),
    ensures
        count_x_row(l.take(j)) <= count_x_row(l),
    decreases l.len(),
{
    if j < l.len() {
        assert(l.drop_last().take(j) =~= l.take(j));
        lemma_count_x_row_take_le(l.drop_last(), j);
    } else {
        assert(l.take(j) =~= l);
    }
}

pub proof fn lemma_count_x_take_le(g: Seq<Seq<char>>, i: int)
    requires
        0 <= i <= g.len(),
    ensures
        count_x(g.take(i)) <= count_x(g),
    decreases g.len(),
{
    if i < g.len() {
        assert(g.drop_last().take(i) =~= g.take(i));
        lemma_count_x_take_le(g.drop_last(), i);
    } else {
        assert(g.take(i) =~= g);
    }
}

/// Exits counted row by row from the front.
pub proof fn lemma_count_x_head(g: Seq<Seq<char>>)
    requires
        g.len() > 0,
    ensures
        count_x(g) == count_x_row(g[0]) + count_x(g.drop_first()),
    decreases g.len(),
{
    if g.len() == 1 {
        assert(g.drop_last() =~= Seq::<Seq<char>>::empty());
        assert(g.drop_first() =~= Seq::<Seq<char>>::empty());
        assert(g.last() == g[0]);
    } else {
        lemma_count_x_head(g.drop_last());
        assert(g.drop_last()[0] == g[0]);
        assert(g.drop_last().drop_first() =~= g.drop_first().drop_last());
        assert(g.drop_first().last() == g.last());
    }
}

/// Turning the grid upside down does not change how many exits it holds.
pub proof fn lemma_count_x_flip(g: Seq<Seq<char>>)
    ensures
        count_x(flip(g)) == count_x(g),
    decreases g.len(),
{
    if g.len() > 0 {
        assert(flip(g).last() == g[0]);
        assert(flip(g).drop_last() =~= flip(g.drop_first()));
        lemma_count_x_flip(g.drop_first());
        lemma_count_x_head(g);
    }
}

/// What the accepted model holds of its description: the declared bounds,
/// the start, the grid rows stored bottom-up, exactly one exit cell, the
/// exit position naming it, and a cell count that fits the machine.
pub open spec fn model_of(s: Seq<char>, gi: GridInfo) -> bool {
    let ls = spec_lines(s);
    &&& gi.row_max == row_max_of(ls)
    &&& gi.column_max == column_max_of(ls)
    &&& gi.start_pos.0 == start_row_of(ls)
    &&& gi.start_pos.1 == start_col_of(ls)
    &&& view2(gi.grid) == flip(ls.skip(2))
    &&& view2(gi.grid).len() == gi.row_max + 1
    &&& forall|i: int|
        0 <= i < view2(gi.grid).len() ==> (#[trigger] view2(gi.grid)[i]).len() == gi.column_max + 1
    &&& count_x(view2(gi.grid)) == 1
    &&& gi.exit_pos.0 <= gi.row_max
    &&& gi.exit_pos.1 <= gi.column_max
    &&& view2(gi.grid)[gi.exit_pos.0 as int][gi.exit_pos.1 as int] == 'X'
    &&& gi.start_pos.0 <= gi.row_max
    &&& gi.start_pos.1 <= gi.column_max
    &&& sum_lens(view2(gi.grid)) <= usize::MAX
}

pub proof fn lemma_count_x_row_at_least(l: Seq<char>, j: int)
    requires
        0 <= j < l.len(),
        l[j] == 'X',
    ensures
        count_x_row(l) >= 1,
{
    lemma_count_x_row_take_step(l, j);
    lemma_count_x_row_take_le(l, j + 1);
}

pub proof fn lemma_count_x_at_least(g: Seq<Seq<char>>, a: int)
    requires
        0 <= a < g.len(),
    ensures
        count_x(g) >= count_x_row(g[a]),
{
    lemma_count_x_take_step(g, a);
    assert(count_x(g.take(a + 1)) >= count_x_row(g[a]));
    lemma_count_x_take_le(g, a + 1);
}

/// A grid with exactly one exit cell has it at exactly one place.
pub proof fn lemma_unique_x(g: Seq<Seq<char>>, p: (usize, usize), q: (usize, usize))
    requires
        count_x(g) == 1,
        (p.0 as int) < g.len() && (p.1 as int) < g[p.0 as int].len(),
        (q.0 as int) < g.len() && (q.1 as int) < g[q.0 as int].len(),
        g[p.0 as int][p.1 as int] == 'X',
        g[q.0 as int][q.1 as int] == 'X',
    ensures
        p == q,
{
    if p.0 == q.0 {
        if p.1 != q.1 {
            let row = g[p.0 as int];
            let j1: int = if p.1 < q.1 {
                p.1 as int
            } else {
                q.1 as int
            };
            let j2: int = if p.1 < q.1 {
                q.1 as int
            } else {
                p.1 as int
            };
            lemma_count_x_row_take_step(row, j1);
            assert(row.take(j2).take(j1 + 1) =~= row.take(j1 + 1));
            lemma_count_x_row_take_le(row.take(j2), j1 + 1);
            lemma_count_x_row_take_step(row, j2);
            lemma_count_x_row_take_le(row, j2 + 1);
            assert(count_x_row(row) >= 2);
            lemma_count_x_at_least(g, p.0 as int);
            assert(false);
        }
    } else {
        let a: int = if p.0 < q.0 {
            p.0 as int
        } else {
            q.0 as int
        };
        let c: int = if p.0 < q.0 {
            q.0 as int
        } else {
            p.0 as int
        };
        let ja: int = if p.0 < q.0 {
            p.1 as int
        } else {
            q.1 as int
        };
        let jc: int = if p.0 < q.0 {
            q.1 as int
        } else {
            p.1 as int
        };
        lemma_count_x_row_at_least(g[a], ja);
        lemma_count_x_row_at_least(g[c], jc);
        lemma_count_x_take_step(g, a);
        assert(count_x(g.take(a + 1)) >= 1);
        assert(g.take(c).take(a + 1) =~= g.take(a + 1));
        lemma_count_x_take_le(g.take(c), a + 1);
        lemma_count_x_take_step(g, c);
        assert(count_x(g.take(c + 1)) >= 2);
        lemma_count_x_take_le(g, c + 1);
        assert(false);
    }
}

/// The accepted model is a function of its description: any two models of
/// the same text agree on every bound, the start, the exit, and every cell.
pub proof fn lemma_model_determined(s: Seq<char>, a: GridInfo, b: GridInfo)
    requires
        model_of(s, a),
        model_of(s, b),
    ensures
        a.row_max == b.row_max,
        a.column_max == b.column_max,
        a.start_pos == b.start_pos,
        a.exit_pos == b.exit_pos,
        view2(a.grid) == view2(b.grid),
{
    lemma_unique_x(view2(a.grid), a.exit_pos, b.exit_pos);
}

impl Clone for GridInfo {
    #[verifier::loop_isolation(false)]
    fn clone(&self) -> (r: Self)
        ensures
            r.start_pos == self.start_pos,
            r.exit_pos == self.exit_pos,
            r.row_max == self.row_max,
            r.column_max == self.column_max,
            view2(r.grid) == view2(self.grid),
    {
        let mut grid: Vec<Vec<char>> = Vec::new();
        let mut i: usize = 0;
        while i < self.grid.len()
            invariant
                i <= self.grid@.len(),
                view2(grid) == view2(self.grid).take(i as int),
            decreases self.grid@.len() - i,
        {
            grid.push(GridInfo::copy_row(&self.grid[i]));
            proof {
                assert(view2(grid) =~~= view2(self.grid).take(i + 1));
            }
            i += 1;
        }
        proof {
            assert(view2(self.grid).take(self.grid@.len() as int) =~~= view2(self.grid));
        }
        GridInfo {
            start_pos: (self.start_pos.0, self.start_pos.1),
            exit_pos: (self.exit_pos.0, self.exit_pos.1),
            row_max: self.row_max,
            column_max: self.column_max,
            grid,
        }
    }
}

// ------------------------------------------------------------------
// The checks, as executable scans
// ------------------------------------------------------------------
impl GridInfo {
    pub const CASE_OPEN: char = 'O';

    pub const CASE_CLOSE: char = 'E';

    pub const CASE_WIN: char = 'X';

    /// Read and check the two header lines: the declared bounds and the
    /// start position, each a pair of machine-sized integers.
    fn check_integrity(lines: &Vec<Vec<char>>) -> (r: Result<(usize, usize, usize, usize), Error>)
        ensures
            ({
                let ls = view2(*lines);
                match r {
                    Err(e) => header_error_at(ls) == Some(e),
                    Ok(v) => header_error_at(ls) is None && v.0 == row_max_of(ls) && v.1
                        == column_max_of(ls) && v.2 == start_row_of(ls) && v.3 == start_col_of(ls),
                }
            }),
    {
        if lines.len() == 0 {
            return Err(Error::MissingRowColumnMax);
        }
        let toks0 = split_tokens(&lines[0]);
        if toks0.len() != 2 {
            return Err(Error::MissingRowColumnMax);
        }
        let row_max = match parse_usize(&toks0[0]) {
            Some(v) => v,
            None => {
                return Err(Error::CastForRowColumnMax);
            },
        };
        let column_max = match parse_usize(&toks0[1]) {
            Some(v) => v,
            None => {
                return Err(Error::CastForRowColumnMax);
            },
        };
        if lines.len() < 2 {
            return Err(Error::MissingStartPos);
        }
        let toks1 = split_tokens(&lines[1]);
        if toks1.len() != 2 {
            return Err(Error::MissingStartPos);
        }
        let start_row = match parse_usize(&toks1[0]) {
            Some(v) => v,
            None => {
                return Err(Error::CastForStartPos);
            },
        };
        let start_column = match parse_usize(&toks1[1]) {
            Some(v) => v,
            None => {
                return Err(Error::CastForStartPos);
            },
        };
        Ok((row_max, column_max, start_row, start_column))
    }

    /// Check everything `logic_error_at` describes, on the grid rows of
    /// `lines` (all but the first two), in text order.
    #[verifier::loop_isolation(false)]
    fn check_logic(lines: &Vec<Vec<char>>, rm: usize, cm: usize, sr: usize, sc: usize) -> (r:
        Result<(), Error>)
        requires
            lines@.len() >= 2,
        ensures
            ({
                let g = view2(*lines).skip(2);
                match r {
                    Ok(_) => logic_error_at(g, rm as int, cm as int, sr as int, sc as int) is None,
                    Err(e) => logic_error_at(g, rm as int, cm as int, sr as int, sc as int)
                        == Some(e),
                }
            }),
    {
        let ghost g = view2(*lines).skip(2);
        if sr > rm || sc > cm {
            return Err(Error::IncoherentStartPos);
        }
        // every character must be authorized
        let mut i: usize = 2;
        while i < lines.len()
            invariant
                2 <= i <= lines@.len(),
                g == view2(*lines).skip(2),
                forall|a: int, b: int|
                    0 <= a < i - 2 && 0 <= b < g[a].len() ==> authorized_case(#[trigger] g[a][b]),
            decreases lines@.len() - i,
        {
            let row = &lines[i];
            let mut j: usize = 0;
            while j < row.len()
                invariant
                    j <= row@.len(),
                    2 <= i < lines@.len(),
                    g == view2(*lines).skip(2),
                    row@ == g[i - 2],
                    forall|b: int| 0 <= b < j ==> authorized_case(#[trigger] g[i - 2][b]),
                decreases row@.len() - j,
            {
                let c = row[j];
                if c != 'O' && c != 'E' && c != 'X' {
                    proof {
                        assert(g[i - 2][j as int] == c);
                        assert(!chars_ok(g));
                    }
                    return Err(Error::UnauthorizedValue);
                }
                j += 1;
            }
            i += 1;
        }
        proof {
            assert(chars_ok(g));
        }
        // the grid must have the declared size
        let nrows: usize = lines.len() - 2;
        if nrows == 0 || nrows - 1 != rm {
            proof {
                assert(!size_ok(g, rm as int, cm as int));
            }
            return Err(Error::IncoherentGridSize);
        }
        let mut i: usize = 2;
        while i < lines.len()
            invariant
                2 <= i <= lines@.len(),
                g == view2(*lines).skip(2),
                forall|a: int| 0 <= a < i - 2 ==> (#[trigger] g[a]).len() == cm + 1,
            decreases lines@.len() - i,
        {
            let w: usize = lines[i].len();
            if w == 0 || w - 1 != cm {
                proof {
                    assert(g[i - 2].len() != cm + 1);
                    assert(!size_ok(g, rm as int, cm as int));
                }
                return Err(Error::IncoherentGridSize);
            }
            i += 1;
        }
        proof {
            assert(size_ok(g, rm as int, cm as int));
        }
        // exactly one exit cell
        let mut seen_exit: bool = false;
        let mut i: usize = 2;
        while i < lines.len()
            invariant
                2 <= i <= lines@.len(),
                g == view2(*lines).skip(2),
                count_x(g.take(i - 2)) == (if seen_exit {
                    1nat
                } else {
                    0nat
                }),
            decreases lines@.len() - i,
        {
            let row = &lines[i];
            let mut j: usize = 0;
            while j < row.len()
                invariant
                    j <= row@.len(),
                    2 <= i < lines@.len(),
                    g == view2(*lines).skip(2),
                    row@ == g[i - 2],
                    count_x(g.take(i - 2)) + count_x_row(g[i - 2].take(j as int)) == (
                    if seen_exit {
                        1nat
                    } else {
                        0nat
                    }),
                decreases row@.len() - j,
            {
                let c = row[j];
                proof {
                    lemma_count_x_row_take_step(g[i - 2], j as int);
                }
                if c == 'X' {
                    if seen_exit {
                        proof {
                            lemma_count_x_row_take_le(g[i - 2], j + 1);
                            lemma_count_x_take_step(g, i - 2);
                            lemma_count_x_take_le(g, i - 1);
                        }
                        return Err(Error::TooManyExits);
                    }
                    seen_exit = true;
                }
                j += 1;
            }
            proof {
                assert(g[i - 2].take(row@.len() as int) =~= g[i - 2]);
                lemma_count_x_take_step(g, i - 2);
            }
            i += 1;
        }
        proof {
            assert(g.take(lines@.len() - 2) =~= g);
        }
        if !seen_exit {
            return Err(Error::MissingExit);
        }
        // policy: the start must not name a closed cell; its row index is
        // read against the text lines top to bottom
        let start_line = &lines[2 + sr];
        if start_line[sc] == 'E' {
            return Err(Error::StartPosOnBlockedCase);
        }
        Ok(())
    }

    /// Copy one row of cells.
    #[verifier::loop_isolation(false)]
    fn copy_row(src: &Vec<char>) -> (r: Vec<char>)
        ensures
            r@ == src@,
    {
        let mut r: Vec<char> = Vec::new();
        let mut k: usize = 0;
        while k < src.len()
            invariant
                k <= src@.len(),
                r@ == src@.take(k as int),
            decreases src@.len() - k,
        {
            r.push(src[k]);
            proof {
                assert(r@ =~= src@.take(k + 1));
            }
            k += 1;
        }
        proof {
            assert(src@.take(src@.len() as int) =~= src@);
        }
        r
    }

    /// Build the grid table from the text lines: the last text line becomes
    /// row 0.
    #[verifier::loop_isolation(false)]
    fn fill_grid(lines: &Vec<Vec<char>>) -> (grid: Vec<Vec<char>>)
        requires
            lines@.len() >= 2,
        ensures
            view2(grid) == flip(view2(*lines).skip(2)),
    {
        let ghost g = view2(*lines).skip(2);
        let nrows: usize = lines.len() - 2;
        let mut grid: Vec<Vec<char>> = Vec::new();
        let mut t: usize = 0;
        while t < nrows
            invariant
                t <= nrows,
                nrows == lines@.len() - 2,
                g == view2(*lines).skip(2),
                view2(grid) == flip(g).take(t as int),
            decreases nrows - t,
        {
            let row = Self::copy_row(&lines[lines.len() - 1 - t]);
            grid.push(row);
            proof {
                assert(flip(g)[t as int] == g[g.len() - 1 - t]);
                assert(view2(grid) =~~= flip(g).take(t + 1));
            }
            t += 1;
        }
        proof {
            assert(flip(g).take(nrows as int) =~~= flip(g));
        }
        grid
    }

    /// Find an exit cell, scanning rows from row 0 upward.
    #[verifier::loop_isolation(false)]
    fn find_exit(grid: &Vec<Vec<char>>) -> (r: Option<(usize, usize)>)
        ensures
            match r {
                Some(p) => p.0 < view2(*grid).len() && p.1 < view2(*grid)[p.0 as int].len()
                    && view2(*grid)[p.0 as int][p.1 as int] == 'X',
                None => count_x(view2(*grid)) == 0,
            },
    {
        let ghost gv = view2(*grid);
        let mut i: usize = 0;
        while i < grid.len()
            invariant
                i <= gv.len(),
                gv == view2(*grid),
                count_x(gv.take(i as int)) == 0,
            decreases gv.len() - i,
        {
            let row = &grid[i];
            let mut j: usize = 0;
            while j < row.len()
                invariant
                    j <= row@.len(),
                    i < gv.len(),
                    gv == view2(*grid),
                    row@ == gv[i as int],
                    count_x_row(gv[i as int].take(j as int)) == 0,
                decreases row@.len() - j,
            {
                proof {
                    lemma_count_x_row_take_step(gv[i as int], j as int);
                }
                if row[j] == 'X' {
                    return Some((i, j));
                }
                j += 1;
            }
            proof {
                assert(gv[i as int].take(row@.len() as int) =~= gv[i as int]);
                lemma_count_x_take_step(gv, i as int);
            }
            i += 1;
        }
        proof {
            assert(gv.take(gv.len() as int) =~= gv);
        }
        None
    }

    /// Parse and validate a maze description. Returns the model exactly when
    /// no check of `grid_error` fails, and the first failed check otherwise.
    pub fn new(grid_row: &str) -> (r: Result<GridInfo, Error>)
        ensures
            ({
                let ls = spec_lines(grid_row@);
                match r {
                    Err(e) => grid_error(grid_row@) == Some(e),
                    Ok(gi) => grid_error(grid_row@) is None && model_of(grid_row@, gi),
                }
            }),
    {
        let chars = chars_of(grid_row);
        let total_chars: usize = chars.len();
        let lines = split_lines(&chars);
        let ghost ls = spec_lines(grid_row@);
        proof {
            lemma_lines_fit(chars@);
        }
        let (row_max, column_max, start_row, start_column) = match Self::check_integrity(&lines) {
            Ok(v) => v,
            Err(e) => {
                return Err(e);
            },
        };
        if let Err(e) = Self::check_logic(&lines, row_max, column_max, start_row, start_column) {
            return Err(e);
        }
        let grid = Self::fill_grid(&lines);
        proof {
            lemma_count_x_flip(ls.skip(2));
            lemma_sum_lens_congruent(view2(grid), ls.skip(2));
            lemma_sum_lens_drop_first(ls);
            lemma_sum_lens_drop_first(ls.drop_first());
            assert(ls.drop_first().drop_first() =~= ls.skip(2));
        }
        match Self::find_exit(&grid) {
            Some(exit_pos) => Ok(
                GridInfo {
                    start_pos: (start_row, start_column),
                    exit_pos,
                    row_max,
                    column_max,
                    grid,
                },
            ),
            None => Err(Error::MissingExit),
        }
    }
}

} // verus!
