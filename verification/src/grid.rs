//! The board itself: a rectangular grid of optional colors together with the
//! history of moves applied to it, and the structural queries the solver's
//! scoring heuristic reads.

use vstd::prelude::*;

use crate::cells::{
    adj, all_moves, all_empty, clear_spec, color_at, cols, column, count_empty, empties_upto,
    gravity_spec, has_color, in_bounds, lemma_closed_contains_reach, lemma_empties_upto_range,
    lemma_empties_upto_update, lemma_reach_refl, lemma_reach_step, lemma_somes_in_len,
    moves_upto, occupied, packed, reach, rect, remove_spec, row_empties, row_moves, rows,
    somes_in, Cells,
};
use crate::color::{char_of, Color};

verus! {

/// A run of `n` dashes.
pub open spec fn dashes(n: int) -> Seq<char>
    decreases n,
{
    if n <= 0 {
        Seq::empty()
    } else {
        dashes(n - 1).push('-')
    }
}

/// The character a cell shows: its color's letter, or a blank.
pub open spec fn cell_char(o: Option<Color>) -> char {
    match o {
        Some(k) => char_of(k),
        None => ' ',
    }
}

/// The first `j` cells of one row, as text.
pub open spec fn row_text(s: Seq<Option<Color>>, j: int) -> Seq<char>
    decreases j,
{
    if j <= 0 {
        Seq::empty()
    } else {
        row_text(s, j - 1).push(cell_char(s[j - 1]))
    }
}

/// The first `i` rows, each framed by bars and ended by a line break.
pub open spec fn rows_text(g: Cells, i: int) -> Seq<char>
    decreases i,
{
    if i <= 0 {
        Seq::empty()
    } else {
        rows_text(g, i - 1) + seq!['|'] + row_text(g[i - 1], g[i - 1].len() as int) + seq![
            '|',
            '\n',
        ]
    }
}

/// The frame line above and below the board.
pub open spec fn border(n: int) -> Seq<char> {
    seq!['+'] + dashes(n) + seq!['+', '\n']
}

/// The whole board as text: framed rows of color letters and blanks.
pub open spec fn render_spec(g: Cells) -> Seq<char> {
    border(cols(g)) + rows_text(g, rows(g)) + border(cols(g))
}

/// The frame line, built.
fn border_str(n: usize) -> (r: String)
    ensures
        r@ == border(n as int),
{
    proof {
        reveal_strlit("+");
        reveal_strlit("-");
        reveal_strlit("+\n");
    }
    let mut s = String::from_str("+");
    let mut i: usize = 0;
    while i < n
        invariant
            i <= n,
            s@ == seq!['+'] + dashes(i as int),
        decreases n - i,
    {
        proof {
            reveal_strlit("-");
        }
        s.append("-");
        proof {
            assert(s@ =~= seq!['+'] + dashes(i + 1));
        }
        i += 1;
    }
    s.append("+\n");
    proof {
        assert(s@ =~= border(n as int));
    }
    s
}

/// Some entry of the work list names the coordinate `y`.
spec fn in_stack(st: Seq<(usize, usize)>, y: (int, int)) -> bool {
    exists|idx: int| 0 <= idx < st.len() && ((#[trigger] st[idx]).0 as int, st[idx].1 as int) == y
}

/// A board: rectangular contents plus the moves applied to reach this state.
#[derive(Clone, Debug, PartialEq, Eq, Hash)]
pub struct Grid {
    pub colors: Vec<Vec<Option<Color>>>,
    pub moves: Vec<(usize, usize)>,
}

impl Grid {
    /// The mathematical value of the board's contents.
    pub open spec fn cells(&self) -> Cells {
        Seq::new(self.colors@.len(), |i: int| self.colors@[i]@)
    }

    /// Well-formedness: rectangular, and small enough that cell counts fit.
    pub open spec fn wf(&self) -> bool {
        &&& rect(self.cells())
        &&& rows(self.cells()) * cols(self.cells()) <= usize::MAX
    }

    /// Create a new grid with the given colors.
    pub fn new(colors: Vec<Vec<Option<Color>>>) -> (g: Grid)
        requires
            rect(Seq::new(colors@.len(), |i: int| colors@[i]@)),
            colors@.len() * (if colors@.len() == 0 { 0int } else { colors@[0]@.len() as int })
                <= usize::MAX,
        ensures
            g.wf(),
            g.cells() == Seq::new(colors@.len(), |i: int| colors@[i]@),
            g.moves@ == Seq::<(usize, usize)>::empty(),
    {
        Grid { colors, moves: Vec::new() }
    }

    /// Number of rows.
    pub fn row_count(&self) -> (n: usize)
        ensures
            n == rows(self.cells()),
    {
        self.colors.len()
    }

    /// Number of columns.
    pub fn col_count(&self) -> (n: usize)
        ensures
            n == cols(self.cells()),
    {
        if self.colors.len() == 0 {
            0
        } else {
            self.colors[0].len()
        }
    }

    /// Check if the grid is empty: no cell holds a color.
    pub fn is_empty(&self) -> (r: bool)
        requires
            self.wf(),
        ensures
            r == all_empty(self.cells()),
    {
        let rows_n = self.colors.len();
        let cols_n = self.col_count();
        let mut i: usize = 0;
        while i < rows_n
            invariant
                rows_n == rows(self.cells()),
                cols_n == cols(self.cells()),
                self.wf(),
                i <= rows_n,
                forall|r: int, c: int|
                    0 <= r < i && 0 <= c < cols_n ==> self.cells()[r][c] is None,
            decreases rows_n - i,
        {
            let mut j: usize = 0;
            while j < cols_n
                invariant
                    rows_n == rows(self.cells()),
                    cols_n == cols(self.cells()),
                    self.wf(),
                    i < rows_n,
                    j <= cols_n,
                    forall|r: int, c: int|
                        0 <= r < i && 0 <= c < cols_n ==> self.cells()[r][c] is None,
                    forall|c: int| 0 <= c < j ==> self.cells()[i as int][c] is None,
                decreases cols_n - j,
            {
                if self.colors[i][j].is_some() {
                    proof {
                        assert(in_bounds(self.cells(), i as int, j as int));
                        assert(self.cells()[i as int][j as int] is Some);
                    }
                    return false;
                }
                j += 1;
            }
            i += 1;
        }
        true
    }

    /// Check if the grid is solved. Alias for `is_empty`.
    pub fn is_solved(&self) -> (r: bool)
        requires
            self.wf(),
        ensures
            r == all_empty(self.cells()),
    {
        self.is_empty()
    }

    /// Number of tiles that are empty.
    pub fn empty_tiles(&self) -> (n: usize)
        requires
            self.wf(),
        ensures
            n == count_empty(self.cells()),
    {
        let rows_n = self.colors.len();
        let cols_n = self.col_count();
        let mut n: usize = 0;
        let mut i: usize = 0;
        while i < rows_n
            invariant
                rows_n == rows(self.cells()),
                cols_n == cols(self.cells()),
                self.wf(),
                i <= rows_n,
                n == empties_upto(self.cells(), i as int),
                n <= i * cols_n,
            decreases rows_n - i,
        {
            let mut j: usize = 0;
            proof {
                lemma_row_empties_bound(self.cells()[i as int], 0);
            }
            while j < cols_n
                invariant
                    rows_n == rows(self.cells()),
                    cols_n == cols(self.cells()),
                    self.wf(),
                    i < rows_n,
                    j <= cols_n,
                    n == empties_upto(self.cells(), i as int) + row_empties(
                        self.cells()[i as int],
                        j as int,
                    ),
                    n <= i * cols_n + j,
                decreases cols_n - j,
            {
                if self.colors[i][j].is_none() {
                    proof {
                        lemma_mul_bounds(i as int, cols_n as int, rows_n as int);
                    }
                    n += 1;
                }
                j += 1;
            }
            proof {
                assert(self.cells()[i as int].len() == cols_n);
                lemma_mul_succ(i as int, cols_n as int);
            }
            i += 1;
        }
        n
    }
    /// All coordinates currently holding a color, in row-major order.
    /// The order is deterministic, the list free of duplicates.
    pub fn valid_moves(&self) -> (r: Vec<(usize, usize)>)
        requires
            self.wf(),
        ensures
            r@ == all_moves(self.cells()),
            forall|k: int|
                0 <= k < r@.len() ==> occupied(
                    self.cells(),
                    #[trigger] r@[k].0 as int,
                    r@[k].1 as int,
                ),
            forall|k1: int, k2: int|
                0 <= k1 < k2 < r@.len() ==> (r@[k1].0 < r@[k2].0 || (r@[k1].0 == r@[k2].0
                    && r@[k1].1 < r@[k2].1)),
    {
        let rows_n = self.colors.len();
        let cols_n = self.col_count();
        let mut r: Vec<(usize, usize)> = Vec::new();
        let mut i: usize = 0;
        while i < rows_n
            invariant
                rows_n == rows(self.cells()),
                cols_n == cols(self.cells()),
                self.wf(),
                i <= rows_n,
                r@ == moves_upto(self.cells(), i as int),
                forall|k: int|
                    0 <= k < r@.len() ==> occupied(
                        self.cells(),
                        #[trigger] r@[k].0 as int,
                        r@[k].1 as int,
                    ),
                forall|k: int| 0 <= k < r@.len() ==> (#[trigger] r@[k].0) < i,
                forall|k1: int, k2: int|
                    0 <= k1 < k2 < r@.len() ==> (r@[k1].0 < r@[k2].0 || (r@[k1].0 == r@[k2].0
                        && r@[k1].1 < r@[k2].1)),
            decreases rows_n - i,
        {
            let mut j: usize = 0;
            while j < cols_n
                invariant
                    rows_n == rows(self.cells()),
                    cols_n == cols(self.cells()),
                    self.wf(),
                    i < rows_n,
                    j <= cols_n,
                    r@ == moves_upto(self.cells(), i as int) + row_moves(
                        self.cells(),
                        i as int,
                        j as int,
                    ),
                    forall|k: int|
                        0 <= k < r@.len() ==> occupied(
                            self.cells(),
                            #[trigger] r@[k].0 as int,
                            r@[k].1 as int,
                        ),
                    forall|k: int|
                        0 <= k < r@.len() ==> ((#[trigger] r@[k].0) < i || (r@[k].0 == i
                            && r@[k].1 < j)),
                    forall|k1: int, k2: int|
                        0 <= k1 < k2 < r@.len() ==> (r@[k1].0 < r@[k2].0 || (r@[k1].0
                            == r@[k2].0 && r@[k1].1 < r@[k2].1)),
                decreases cols_n - j,
            {
                let ghost prev = r@;
                if self.colors[i][j].is_some() {
                    r.push((i, j));
                    proof {
                        assert(r@ =~= prev + seq![(i, j)]);
                        assert(r@ =~= moves_upto(self.cells(), i as int) + row_moves(
                            self.cells(),
                            i as int,
                            j + 1,
                        ));
                    }
                } else {
                    proof {
                        assert(r@ =~= moves_upto(self.cells(), i as int) + row_moves(
                            self.cells(),
                            i as int,
                            j + 1,
                        ));
                    }
                }
                j += 1;
            }
            proof {
                assert(r@ =~= moves_upto(self.cells(), i + 1));
            }
            i += 1;
        }
        r
    }

    /// The board as human-readable text: one character per cell, one line
    /// per row, a blank for emptiness, all inside a fixed-width frame.
    pub fn render(&self) -> (r: String)
        requires
            self.wf(),
        ensures
            r@ == render_spec(self.cells()),
    {
        let ghost g = self.cells();
        let rows_n = self.colors.len();
        let cols_n = self.col_count();
        let mut out = border_str(cols_n);
        let mut i: usize = 0;
        while i < rows_n
            invariant
                self.wf(),
                g == self.cells(),
                rows_n == rows(g),
                cols_n == cols(g),
                i <= rows_n,
                out@ == border(cols(g)) + rows_text(g, i as int),
            decreases rows_n - i,
        {
            proof {
                reveal_strlit("|");
                assert(self.cells()[i as int].len() == cols(g));
            }
            out.append("|");
            let ghost row_start = out@;
            let mut j: usize = 0;
            while j < cols_n
                invariant
                    self.wf(),
                    g == self.cells(),
                    rows_n == rows(g),
                    cols_n == cols(g),
                    i < rows_n,
                    j <= cols_n,
                    self.cells()[i as int].len() == cols(g),
                    row_start == border(cols(g)) + rows_text(g, i as int) + seq!['|'],
                    out@ == row_start + row_text(g[i as int], j as int),
                decreases cols_n - j,
            {
                proof {
                    reveal_strlit("G");
                    reveal_strlit("P");
                    reveal_strlit("B");
                    reveal_strlit("O");
                    reveal_strlit(" ");
                }
                let piece = match self.colors[i][j] {
                    Some(Color::Green) => "G",
                    Some(Color::Pink) => "P",
                    Some(Color::Blue) => "B",
                    Some(Color::Orange) => "O",
                    None => " ",
                };
                proof {
                    assert(piece@ =~= seq![cell_char(g[i as int][j as int])]);
                }
                out.append(piece);
                proof {
                    assert(out@ =~= row_start + row_text(g[i as int], j + 1));
                }
                j += 1;
            }
            proof {
                reveal_strlit("|\n");
            }
            out.append("|\n");
            proof {
                assert(out@ =~= border(cols(g)) + rows_text(g, i + 1));
            }
            i += 1;
        }
        let tail = border_str(cols_n);
        out.append(tail.as_str());
        proof {
            assert(out@ =~= render_spec(g));
        }
        out
    }

    /// An independent copy of the board: same contents, same move history.
    /// Boards handed between search layers are always such copies, so no
    /// board is ever mutated after it enters a frontier.
    pub fn duplicate(&self) -> (g: Grid)
        ensures
            g.cells() == self.cells(),
            g.moves@ == self.moves@,
    {
        let mut colors: Vec<Vec<Option<Color>>> = Vec::new();
        let mut i: usize = 0;
        while i < self.colors.len()
            invariant
                i <= self.colors@.len(),
                colors@.len() == i,
                forall|r: int| 0 <= r < i ==> #[trigger] colors@[r]@ == self.colors@[r]@,
            decreases self.colors@.len() - i,
        {
            let mut row: Vec<Option<Color>> = Vec::new();
            let mut j: usize = 0;
            while j < self.colors[i].len()
                invariant
                    i < self.colors@.len(),
                    j <= self.colors@[i as int]@.len(),
                    row@.len() == j,
                    forall|c: int|
                        0 <= c < j ==> #[trigger] row@[c] == self.colors@[i as int]@[c],
                decreases self.colors@[i as int]@.len() - j,
            {
                row.push(self.colors[i][j]);
                j += 1;
            }
            proof {
                assert(row@ =~= self.colors@[i as int]@);
            }
            colors.push(row);
            i += 1;
        }
        let mut moves: Vec<(usize, usize)> = Vec::new();
        let mut k: usize = 0;
        while k < self.moves.len()
            invariant
                k <= self.moves@.len(),
                moves@.len() == k,
                forall|x: int| 0 <= x < k ==> #[trigger] moves@[x] == self.moves@[x],
            decreases self.moves@.len() - k,
        {
            moves.push(self.moves[k]);
            k += 1;
        }
        proof {
            assert(moves@ =~= self.moves@);
        }
        let g = Grid { colors, moves };
        proof {
            assert(g.cells() =~~= self.cells());
        }
        g
    }

    /// Flood-clear the connected same-color region of the occupied cell
    /// `(row, col)`: an iterative traversal with an explicit work stack,
    /// clearing each visited cell, which doubles as its visited marker.
    #[verifier::rlimit(100)]
    fn flood_clear(&mut self, row: usize, col: usize)
        requires
            old(self).wf(),
            occupied(old(self).cells(), row as int, col as int),
        ensures
            final(self).wf(),
            final(self).moves@ == old(self).moves@,
            final(self).cells() == clear_spec(old(self).cells(), row as int, col as int),
    {
        let rows_n = self.colors.len();
        let cols_n = self.col_count();
        let ghost orig = self.cells();
        let ghost src = (row as int, col as int);
        let k = self.colors[row][col].unwrap();
        let mut stack: Vec<(usize, usize)> = Vec::new();
        stack.push((row, col));
        let ghost mut cleared: Set<(int, int)> = Set::empty();
        proof {
            lemma_reach_refl(orig, k, src);
            lemma_empties_upto_range(orig, orig.len() as int);
            assert(stack@[0] == (row, col));
            assert(in_stack(stack@, src));
        }
        while stack.len() > 0
            invariant
                self.wf(),
                rows(self.cells()) == rows(orig),
                cols(self.cells()) == cols(orig),
                rows_n == rows(orig),
                cols_n == cols(orig),
                self.moves@ == old(self).moves@,
                rect(orig),
                has_color(orig, src, k),
                src == (row as int, col as int),
                forall|i: int, j: int|
                    in_bounds(orig, i, j) ==> #[trigger] self.cells()[i][j] == (
                    if cleared.contains((i, j)) {
                        None::<Color>
                    } else {
                        orig[i][j]
                    }),
                forall|t: (int, int)|
                    cleared.contains(t) ==> has_color(orig, t, k) && reach(orig, k, src, t),
                forall|idx: int|
                    0 <= idx < stack@.len() ==> in_bounds(
                        orig,
                        (#[trigger] stack@[idx]).0 as int,
                        stack@[idx].1 as int,
                    ) && ((stack@[idx].0 as int, stack@[idx].1 as int) == src || exists|x: (int, int)|
                        cleared.contains(x) && adj(
                            x,
                            (stack@[idx].0 as int, stack@[idx].1 as int),
                        )),
                forall|x: (int, int), y: (int, int)|
                    cleared.contains(x) && adj(x, y) && has_color(orig, y, k) ==> cleared.contains(
                        y,
                    ) || in_stack(stack@, y),
                cleared.contains(src) || in_stack(stack@, src),
                0 <= count_empty(self.cells()) <= rows(orig) * cols(orig),
            decreases (rows(orig) * cols(orig) - count_empty(self.cells())) * 5 + stack@.len(),
        {
            let ghost prev_cells = self.cells();
            let ghost prev_stack = stack@;
            let ghost prev_cleared = cleared;
            let rc = stack.pop().unwrap();
            let r = rc.0;
            let c = rc.1;
            let ghost y0 = (r as int, c as int);
            proof {
                assert(prev_stack[prev_stack.len() - 1] == rc);
                assert(in_bounds(orig, y0.0, y0.1));
                assert(r < self.colors@.len());
                assert(self.cells()[r as int].len() == cols(orig));
                assert(c < self.colors@[r as int]@.len());
            }
            let cur = self.colors[r][c];
            let hit = match cur {
                Some(x) => x == k,
                None => false,
            };
            if hit {
                proof {
                    // the cell still holds its original color, so it was not
                    // cleared yet; its clearing is justified by reachability
                    assert(self.cells()[y0.0][y0.1] == cur);
                    assert(!cleared.contains(y0));
                    assert(has_color(orig, y0, k));
                    if y0 == src {
                        lemma_reach_refl(orig, k, src);
                    } else {
                        let x = choose|x: (int, int)| cleared.contains(x) && adj(x, y0);
                        lemma_reach_step(orig, k, src, x, y0);
                    }
                    assert(reach(orig, k, src, y0));
                }
                self.colors[r][c] = None;
                proof {
                    assert(self.cells() =~~= prev_cells.update(
                        r as int,
                        prev_cells[r as int].update(c as int, None),
                    ));
                    lemma_empties_upto_update(prev_cells, r as int, c as int,
                        prev_cells.len() as int);
                    lemma_empties_upto_range(self.cells(), self.cells().len() as int);
                    cleared = cleared.insert(y0);
                }
                if r > 0 {
                    stack.push((r - 1, c));
                }
                if r + 1 < rows_n {
                    stack.push((r + 1, c));
                }
                if c > 0 {
                    stack.push((r, c - 1));
                }
                if c + 1 < cols_n {
                    stack.push((r, c + 1));
                }
                proof {
                    // every in-bounds neighbor of the cleared cell is on the stack
                    assert forall|y: (int, int)| adj(y0, y) && in_bounds(orig, y.0, y.1)
                        implies in_stack(stack@, y) by {
                        if y == (y0.0 - 1, y0.1) {
                            assert(stack@[prev_stack.len() - 1] == ((r - 1) as usize, c));
                        } else if y == (y0.0 + 1, y0.1) {
                            let idx = stack@.len() - (if y0.1 - 1 >= 0 { 1int } else { 0 }) - (
                            if y0.1 + 1 < cols_n { 1int } else { 0 }) - 1;
                            assert(stack@[idx] == ((r + 1) as usize, c));
                        } else if y == (y0.0, y0.1 - 1) {
                            let idx = stack@.len() - (if y0.1 + 1 < cols_n { 1int } else { 0 })
                                - 1;
                            assert(stack@[idx] == (r, (c - 1) as usize));
                        } else if y == (y0.0, y0.1 + 1) {
                            assert(stack@[stack@.len() - 1] == (r, (c + 1) as usize));
                        }
                    }
                    // old stack entries below the popped one are still there
                    assert forall|y: (int, int)| in_stack(prev_stack, y) && y != y0
                        implies in_stack(stack@, y) by {
                        let idx = choose|idx: int|
                            0 <= idx < prev_stack.len() && ((#[trigger] prev_stack[idx]).0 as int,
                            prev_stack[idx].1 as int) == y;
                        if idx < prev_stack.len() - 1 {
                            assert(stack@[idx] == prev_stack[idx]);
                        }
                    }
                    // every entry still names a cell beside a cleared one
                    assert forall|idx: int| 0 <= idx < stack@.len() implies in_bounds(
                        orig,
                        (#[trigger] stack@[idx]).0 as int,
                        stack@[idx].1 as int,
                    ) && ((stack@[idx].0 as int, stack@[idx].1 as int) == src || exists|x: (int, int)|
                        cleared.contains(x) && adj(
                            x,
                            (stack@[idx].0 as int, stack@[idx].1 as int),
                        )) by {
                        let y = (stack@[idx].0 as int, stack@[idx].1 as int);
                        if idx < prev_stack.len() - 1 {
                            assert(stack@[idx] == prev_stack[idx]);
                            if y != src {
                                let x = choose|x: (int, int)|
                                    prev_cleared.contains(x) && adj(x, y);
                                assert(cleared.contains(x) && adj(x, y));
                            }
                        } else {
                            assert(cleared.contains(y0));
                            assert(adj(y0, y));
                            assert(cleared.contains(y0) && adj(y0, y));
                        }
                    }
                }
            } else {
                proof {
                    // a popped cell that no longer shows the color was either
                    // cleared already or never held it; only the stack shrank
                    if has_color(orig, y0, k) {
                        assert(self.cells()[y0.0][y0.1] == cur);
                        assert(cleared.contains(y0));
                    }
                    assert forall|y: (int, int)| in_stack(prev_stack, y) && y != y0
                        implies in_stack(stack@, y) by {
                        let idx = choose|idx: int|
                            0 <= idx < prev_stack.len() && ((#[trigger] prev_stack[idx]).0 as int,
                            prev_stack[idx].1 as int) == y;
                        if idx < prev_stack.len() - 1 {
                            assert(stack@[idx] == prev_stack[idx]);
                        }
                    }
                }
            }
        }
        proof {
            lemma_closed_contains_reach(orig, k, src, cleared);
            assert(color_at(orig, row as int, col as int) == k);
            assert forall|i: int| 0 <= i < orig.len() implies self.cells()[i] =~= clear_spec(
                orig,
                row as int,
                col as int,
            )[i] by {
                assert(self.cells()[i].len() == cols(orig));
                assert(orig[i].len() == cols(orig));
                assert forall|j: int| 0 <= j < cols(orig) implies self.cells()[i][j] == clear_spec(
                    orig,
                    row as int,
                    col as int,
                )[i][j] by {
                    if reach(orig, k, src, (i, j)) {
                        assert(cleared.contains((i, j)));
                    } else {
                        assert(!cleared.contains((i, j)));
                    }
                }
            }
            assert(self.cells() =~= clear_spec(orig, row as int, col as int));
        }
    }

    /// Shift all the shapes that are above an empty space down: gravity
    /// settles each column independently, keeping the relative order of the
    /// tiles that remain, pushing all emptiness to the top of the column.
    fn tick(&mut self)
        requires
            old(self).wf(),
        ensures
            final(self).wf(),
            final(self).moves@ == old(self).moves@,
            final(self).cells() == gravity_spec(old(self).cells()),
    {
        let rows_n = self.colors.len();
        let cols_n = self.col_count();
        let ghost orig = self.cells();
        let mut kept: Vec<Vec<Option<Color>>> = Vec::new();
        let mut c: usize = 0;
        while c < cols_n
            invariant
                self.wf(),
                self.cells() == orig,
                rows_n == rows(orig),
                cols_n == cols(orig),
                c <= cols_n,
                kept@.len() == c,
                forall|j: int|
                    0 <= j < c ==> #[trigger] kept@[j]@ == somes_in(column(orig, j), rows(orig)),
            decreases cols_n - c,
        {
            let mut kc: Vec<Option<Color>> = Vec::new();
            let mut r: usize = 0;
            while r < rows_n
                invariant
                    self.wf(),
                    self.cells() == orig,
                    rows_n == rows(orig),
                    cols_n == cols(orig),
                    c < cols_n,
                    r <= rows_n,
                    kc@ == somes_in(column(orig, c as int), r as int),
                decreases rows_n - r,
            {
                proof {
                    assert(self.cells()[r as int].len() == cols(orig));
                }
                let cell = self.colors[r][c];
                proof {
                    assert(column(orig, c as int)[r as int] == cell);
                }
                if cell.is_some() {
                    kc.push(cell);
                }
                proof {
                    assert(kc@ =~= somes_in(column(orig, c as int), r + 1));
                }
                r += 1;
            }
            kept.push(kc);
            c += 1;
        }
        let mut out: Vec<Vec<Option<Color>>> = Vec::new();
        let mut r: usize = 0;
        while r < rows_n
            invariant
                self.wf(),
                self.cells() == orig,
                rows_n == rows(orig),
                cols_n == cols(orig),
                kept@.len() == cols_n,
                forall|j: int|
                    0 <= j < cols_n ==> #[trigger] kept@[j]@ == somes_in(
                        column(orig, j),
                        rows(orig),
                    ),
                r <= rows_n,
                out@.len() == r,
                forall|i: int| 0 <= i < r ==> (#[trigger] out@[i]@).len() == cols_n,
                forall|i: int, j: int|
                    0 <= i < r && 0 <= j < cols_n ==> #[trigger] out@[i]@[j] == packed(
                        column(orig, j),
                    )[i],
            decreases rows_n - r,
        {
            let mut orow: Vec<Option<Color>> = Vec::new();
            let mut c2: usize = 0;
            while c2 < cols_n
                invariant
                    self.wf(),
                    self.cells() == orig,
                    rows_n == rows(orig),
                    cols_n == cols(orig),
                    kept@.len() == cols_n,
                    forall|j: int|
                        0 <= j < cols_n ==> #[trigger] kept@[j]@ == somes_in(
                            column(orig, j),
                            rows(orig),
                        ),
                    r < rows_n,
                    c2 <= cols_n,
                    orow@.len() == c2,
                    forall|j: int|
                        0 <= j < c2 ==> #[trigger] orow@[j] == packed(column(orig, j))[r as int],
                decreases cols_n - c2,
            {
                let klen = kept[c2].len();
                proof {
                    lemma_somes_in_len(column(orig, c2 as int), rows(orig));
                    assert(column(orig, c2 as int).len() == rows(orig));
                }
                let v = if r < rows_n - klen {
                    None
                } else {
                    kept[c2][r - (rows_n - klen)]
                };
                orow.push(v);
                proof {
                    assert(orow@[c2 as int] == packed(column(orig, c2 as int))[r as int]);
                }
                c2 += 1;
            }
            out.push(orow);
            r += 1;
        }
        self.colors = out;
        proof {
            assert forall|i: int| 0 <= i < rows(orig) implies self.cells()[i] =~= gravity_spec(
                orig,
            )[i] by {
                assert(self.cells()[i].len() == cols(orig));
                assert(orig[i].len() == cols(orig));
            }
            assert(self.cells() =~= gravity_spec(orig));
        }
    }

    /// Remove the shape at the given row and column, and all orthogonally
    /// connected shapes of the same color, then let gravity settle the
    /// result. The coordinate is always recorded in the move history; a move
    /// aimed at an empty cell changes no cell contents.
    pub fn remove(&mut self, row: usize, col: usize)
        requires
            old(self).wf(),
            in_bounds(old(self).cells(), row as int, col as int),
        ensures
            final(self).wf(),
            rows(final(self).cells()) == rows(old(self).cells()),
            cols(final(self).cells()) == cols(old(self).cells()),
            final(self).moves@ == old(self).moves@.push((row, col)),
            final(self).cells() == remove_spec(old(self).cells(), row as int, col as int),
            old(self).cells()[row as int][col as int] is None ==> final(self).cells() == old(
                self,
            ).cells(),
    {
        let ghost orig = self.cells();
        self.moves.push((row, col));
        proof {
            assert(self.cells() == orig);
            assert(self.cells()[row as int].len() == cols(orig));
        }
        if self.colors[row][col].is_some() {
            self.flood_clear(row, col);
            self.tick();
        }
        proof {
            assert(cols(self.cells()) == cols(orig));
        }
    }
}

/// Empty-count of a row prefix never exceeds its length.
proof fn lemma_row_empties_bound(s: Seq<Option<Color>>, j: int)
    ensures
        row_empties(s, j) <= if j <= 0 {
            0int
        } else {
            j
        },
    decreases j,
{
    if j > 0 {
        lemma_row_empties_bound(s, j - 1);
    }
}

/// `i * c + c == (i + 1) * c`.
proof fn lemma_mul_succ(i: int, c: int)
    ensures
        i * c + c == (i + 1) * c,
{
    assert(i * c + c == (i + 1) * c) by (nonlinear_arith);
}

/// If `i < r` then `i * c + c <= r * c` for nonnegative `c`.
proof fn lemma_mul_bounds(i: int, c: int, r: int)
    requires
        0 <= i < r,
        0 <= c,
    ensures
        i * c + c <= r * c,
{
    assert(i * c + c <= r * c) by (nonlinear_arith)
        requires
            0 <= i < r,
            0 <= c,
    ;
}

} // verus!
