//! The automated solver: a width-bounded, depth-bounded beam search over
//! board snapshots, ranking successors with a heuristic score that looks a
//! fixed few plies ahead. If it reports a move sequence at all, replaying
//! that sequence from the starting board provably clears it.

use vstd::prelude::*;

use crate::cells::{
    all_empty, all_moves, cluster_set, cluster_size, cols, count_empty, in_bounds,
    lemma_cluster_size_pos, lemma_empties_upto_range, lemma_grid_count_range,
    lemma_max_cluster_bound, lemma_max_cluster_witness, lemma_remove_spec_shape, lemma_replay_empty,
    lemma_replay_push, max_cluster_size, occupied, rect, remove_spec, replay, rows, Cells,
};
use crate::color::Color;
use crate::grid::Grid;

verus! {

/// The board is small enough for the score arithmetic to stay in `usize`.
pub open spec fn scorable(g: Cells) -> bool {
    20 * (rows(g) * cols(g)) <= usize::MAX
}

/// The heuristic worth of a board reached after `moves` moves: closeness to
/// cleared plus the opportunity of its largest remaining region, scaled and
/// divided by the move count so that shorter routes win ties.
pub open spec fn score_spec(g: Cells, moves: int) -> int {
    (count_empty(g) + max_cluster_size(g)) * 10 / (moves + 1)
}

/// The best lookahead value over the listed moves: each is applied to `g`
/// and explored `depth - 1` plies further.
pub open spec fn best_from(g: Cells, ms: Seq<(usize, usize)>, depth: nat, moves: int) -> int
    decreases depth, ms.len(), 0int,
{
    if ms.len() == 0 || depth == 0 {
        0
    } else {
        let sub = lookahead_spec(
            remove_spec(g, ms[0].0 as int, ms[0].1 as int),
            (depth - 1) as nat,
            moves + 1,
        );
        let rest = best_from(g, ms.drop_first(), depth, moves);
        if sub > rest {
            sub
        } else {
            rest
        }
    }
}

/// The best static score achievable within `depth` further moves: the value
/// the solver ranks a candidate board by. A board with no move left scores 0
/// at positive depth, as the exhaustive search finds nothing to explore.
pub open spec fn lookahead_spec(g: Cells, depth: nat, moves: int) -> int
    decreases depth, all_moves(g).len(), 1int,
{
    if depth == 0 {
        score_spec(g, moves)
    } else {
        best_from(g, all_moves(g), depth, moves)
    }
}

/// Every coordinate of the sequence lies on the `rows` by `cols` grid.
pub open spec fn path_wf(ms: Seq<(usize, usize)>, nrows: int, ncols: int) -> bool {
    forall|idx: int|
        0 <= idx < ms.len() ==> (#[trigger] ms[idx]).0 < nrows && ms[idx].1 < ncols
}

/// Every move of the sequence is a valid move — an occupied cell — of the
/// board it is applied to.
pub open spec fn path_valid(g: Cells, ms: Seq<(usize, usize)>) -> bool
    decreases ms.len(),
{
    ms.len() == 0 || (occupied(g, ms[0].0 as int, ms[0].1 as int) && path_valid(
        remove_spec(g, ms[0].0 as int, ms[0].1 as int),
        ms.drop_first(),
    ))
}

/// A valid path extends by any valid move of the board it ends on.
proof fn lemma_path_valid_push(g: Cells, ms: Seq<(usize, usize)>, m: (usize, usize))
    requires
        path_valid(g, ms),
        occupied(replay(g, ms), m.0 as int, m.1 as int),
    ensures
        path_valid(g, ms.push(m)),
    decreases ms.len(),
{
    if ms.len() == 0 {
        assert(ms.push(m)[0] == m);
        assert(ms.push(m).drop_first() =~= Seq::<(usize, usize)>::empty());
        assert(replay(g, ms) == g);
        assert(path_valid(remove_spec(g, m.0 as int, m.1 as int), ms.push(m).drop_first()));
    } else {
        assert(ms.push(m)[0] == ms[0]);
        assert(ms.push(m).drop_first() =~= ms.drop_first().push(m));
        assert(replay(g, ms) == replay(
            remove_spec(g, ms[0].0 as int, ms[0].1 as int),
            ms.drop_first(),
        ));
        lemma_path_valid_push(
            remove_spec(g, ms[0].0 as int, ms[0].1 as int),
            ms.drop_first(),
            m,
        );
    }
}

/// Some single move already clears the board.
pub open spec fn wins_in_one(g: Cells) -> bool {
    exists|k: int|
        0 <= k < all_moves(g).len() && all_empty(
            remove_spec(g, (#[trigger] all_moves(g)[k]).0 as int, all_moves(g)[k].1 as int),
        )
}

/// The beam search solver: a starting board and the two search bounds,
/// fixed at construction.
pub struct Solver {
    pub grid: Grid,
    pub beam_max_depth: usize,
    pub beam_width: usize,
}

impl Solver {
    /// The solver's boards stay well-formed and its arithmetic in range.
    pub open spec fn wf(&self) -> bool {
        &&& self.grid.wf()
        &&& scorable(self.grid.cells())
        &&& self.beam_max_depth + 4 <= usize::MAX
    }

    /// Create a new solver with the given grid and search bounds: the
    /// maximum number of layers to expand and the number of candidate
    /// boards kept per layer.
    pub fn new(grid: Grid, beam_max_depth: usize, beam_width: usize) -> (s: Solver)
        requires
            grid.wf(),
            scorable(grid.cells()),
            beam_max_depth + 4 <= usize::MAX,
        ensures
            s.wf(),
            s.grid == grid,
            s.beam_max_depth == beam_max_depth,
            s.beam_width == beam_width,
    {
        Solver { grid, beam_max_depth, beam_width }
    }
}

/// A board that no move sequence clears is never reported solved: any
/// answer meeting `beam_search`'s contract on such a board is `None`, not a
/// bogus path.
pub proof fn lemma_unsolvable_yields_none(g0: Cells, r: Option<Seq<(usize, usize)>>)
    requires
        match r {
            Some(p) => all_empty(replay(g0, p)),
            None => true,
        },
        forall|p: Seq<(usize, usize)>| !all_empty(#[trigger] replay(g0, p)),
    ensures
        r is None,
{
    if let Some(p) = r {
        assert(!all_empty(replay(g0, p)));
    }
}

/// `score = (empty_tiles + largest_cluster) * 10 / (moves + 1)`.
fn score(grid: &Grid, moves: usize) -> (s: usize)
    requires
        grid.wf(),
        scorable(grid.cells()),
        moves < usize::MAX,
    ensures
        s == score_spec(grid.cells(), moves as int),
{
    let ghost g = grid.cells();
    let empty_count = grid.empty_tiles();
    let largest_cluster_size = grid.largest_cluster();
    proof {
        lemma_empties_upto_range(g, g.len() as int);
        lemma_max_cluster_witness(g, rows(g));
        // the query's result equals the specified maximum region size
        if all_empty(g) {
            if max_cluster_size(g) != 0 {
                let s1 = choose|s1: (int, int)|
                    occupied(g, s1.0, s1.1) && cluster_size(g, s1) == max_cluster_size(g);
                assert(g[s1.0][s1.1] is None);
                assert(false);
            }
        } else {
            let s0 = choose|s0: (int, int)|
                occupied(g, s0.0, s0.1) && cluster_size(g, s0) == largest_cluster_size;
            lemma_max_cluster_bound(g, s0);
            lemma_cluster_size_pos(g, s0);
            if max_cluster_size(g) == 0 {
                assert(false);
            }
            let s1 = choose|s1: (int, int)|
                occupied(g, s1.0, s1.1) && cluster_size(g, s1) == max_cluster_size(g);
            assert(cluster_size(g, s1) <= largest_cluster_size);
            lemma_grid_count_range(cluster_set(g, s0), rows(g), cols(g));
        }
        assert(largest_cluster_size == max_cluster_size(g));
        assert(empty_count <= rows(g) * cols(g));
        assert(largest_cluster_size <= rows(g) * cols(g));
    }
    (empty_count + largest_cluster_size) * 10 / (moves + 1)
}

/// The greater of two integers.
pub open spec fn imax(a: int, b: int) -> int {
    if a > b {
        a
    } else {
        b
    }
}

/// Lookahead values are never negative.
proof fn lemma_lookahead_nonneg(g: Cells, depth: nat, moves: int)
    requires
        rect(g),
        moves >= 0,
    ensures
        lookahead_spec(g, depth, moves) >= 0,
    decreases depth, all_moves(g).len(), 1int,
{
    if depth == 0 {
        lemma_empties_upto_range(g, g.len() as int);
        lemma_max_cluster_witness(g, rows(g));
    } else {
        lemma_best_from_nonneg(g, all_moves(g), depth, moves);
    }
}

/// Best-over-moves values are never negative.
proof fn lemma_best_from_nonneg(g: Cells, ms: Seq<(usize, usize)>, depth: nat, moves: int)
    requires
        rect(g),
        moves >= 0,
    ensures
        best_from(g, ms, depth, moves) >= 0,
    decreases depth, ms.len(), 0int,
{
    if ms.len() > 0 && depth > 0 {
        lemma_remove_spec_shape(g, ms[0].0 as int, ms[0].1 as int);
        lemma_lookahead_nonneg(
            remove_spec(g, ms[0].0 as int, ms[0].1 as int),
            (depth - 1) as nat,
            moves + 1,
        );
        lemma_best_from_nonneg(g, ms.drop_first(), depth, moves);
    }
}

/// The best achievable static score within `depth` further moves, found by
/// exhaustively trying every valid move at each lookahead level.
fn lookahead_score(grid: &Grid, depth: usize, current_moves: usize) -> (s: usize)
    requires
        grid.wf(),
        scorable(grid.cells()),
        current_moves + depth < usize::MAX,
    ensures
        s == lookahead_spec(grid.cells(), depth as nat, current_moves as int),
    decreases depth,
{
    if depth == 0 {
        return score(grid, current_moves);
    }
    let ghost g = grid.cells();
    let moves_list = grid.valid_moves();
    let mut best: usize = 0;
    let mut idx: usize = 0;
    proof {
        lemma_best_from_nonneg(g, all_moves(g), depth as nat, current_moves as int);
        assert(moves_list@.subrange(0, moves_list@.len() as int) =~= moves_list@);
    }
    while idx < moves_list.len()
        invariant
            grid.wf(),
            scorable(g),
            g == grid.cells(),
            1 <= depth,
            current_moves + depth < usize::MAX,
            idx <= moves_list@.len(),
            moves_list@ == all_moves(g),
            forall|k: int|
                0 <= k < moves_list@.len() ==> occupied(
                    g,
                    #[trigger] moves_list@[k].0 as int,
                    moves_list@[k].1 as int,
                ),
            imax(
                best as int,
                best_from(
                    g,
                    moves_list@.subrange(idx as int, moves_list@.len() as int),
                    depth as nat,
                    current_moves as int,
                ),
            ) == best_from(g, all_moves(g), depth as nat, current_moves as int),
        decreases moves_list@.len() - idx,
    {
        let (row, col) = moves_list[idx];
        let mut new_grid = grid.duplicate();
        proof {
            assert(new_grid.wf());
            assert(in_bounds(new_grid.cells(), row as int, col as int));
        }
        new_grid.remove(row, col);
        proof {
            assert(new_grid.cells() == remove_spec(g, row as int, col as int));
            assert(scorable(new_grid.cells()));
        }
        let sub = lookahead_score(&new_grid, depth - 1, current_moves + 1);
        proof {
            let tail = moves_list@.subrange(idx as int, moves_list@.len() as int);
            assert(tail[0] == moves_list@[idx as int]);
            assert(tail.drop_first() =~= moves_list@.subrange(
                idx + 1,
                moves_list@.len() as int,
            ));
            lemma_best_from_nonneg(g, tail.drop_first(), depth as nat, current_moves as int);
        }
        if sub > best {
            best = sub;
        }
        idx += 1;
    }
    proof {
        assert(moves_list@.subrange(moves_list@.len() as int, moves_list@.len() as int)
            =~= Seq::<(usize, usize)>::empty());
    }
    best
}

/// Compare two optional colors for equality.
fn opt_color_eq(a: Option<Color>, b: Option<Color>) -> (r: bool)
    ensures
        r == (a == b),
{
    match (a, b) {
        (None, None) => true,
        (Some(x), Some(y)) => x == y,
        _ => false,
    }
}

/// Whether two boards show the same cell contents. The move histories that
/// led to them play no part in the comparison.
fn same_colors(a: &Grid, b: &Grid) -> (r: bool)
    requires
        a.wf(),
        b.wf(),
    ensures
        r == (a.cells() == b.cells()),
{
    let ghost ga = a.cells();
    let ghost gb = b.cells();
    let rows_a = a.colors.len();
    if rows_a != b.colors.len() {
        proof {
            assert(ga.len() != gb.len());
        }
        return false;
    }
    let cols_a = a.col_count();
    let cols_b = b.col_count();
    if cols_a != cols_b {
        proof {
            assert(rows(ga) > 0);
            assert(ga[0].len() != gb[0].len());
        }
        return false;
    }
    let mut i: usize = 0;
    while i < rows_a
        invariant
            a.wf(),
            b.wf(),
            ga == a.cells(),
            gb == b.cells(),
            rows_a == rows(ga) == rows(gb),
            cols_a == cols(ga) == cols(gb),
            i <= rows_a,
            forall|r: int, c: int|
                0 <= r < i && 0 <= c < cols_a ==> ga[r][c] == gb[r][c],
        decreases rows_a - i,
    {
        let mut j: usize = 0;
        while j < cols_a
            invariant
                a.wf(),
                b.wf(),
                ga == a.cells(),
                gb == b.cells(),
                rows_a == rows(ga) == rows(gb),
                cols_a == cols(ga) == cols(gb),
                i < rows_a,
                j <= cols_a,
                forall|r: int, c: int|
                    0 <= r < i && 0 <= c < cols_a ==> ga[r][c] == gb[r][c],
                forall|c: int| 0 <= c < j ==> ga[i as int][c] == gb[i as int][c],
            decreases cols_a - j,
        {
            proof {
                assert(a.cells()[i as int].len() == cols_a);
                assert(b.cells()[i as int].len() == cols_a);
            }
            if !opt_color_eq(a.colors[i][j], b.colors[i][j]) {
                proof {
                    assert(ga[i as int][j as int] != gb[i as int][j as int]);
                }
                return false;
            }
            j += 1;
        }
        i += 1;
    }
    proof {
        assert forall|r: int| 0 <= r < rows(ga) implies ga[r] =~= gb[r] by {
            assert(ga[r].len() == cols(ga));
            assert(gb[r].len() == cols(ga));
        }
        assert(ga =~= gb);
    }
    true
}

/// Whether the cell contents of `g` already occur in the seen list.
fn contains_grid(seen: &Vec<Grid>, g: &Grid) -> (r: bool)
    requires
        g.wf(),
        forall|k: int| 0 <= k < seen@.len() ==> (#[trigger] seen@[k]).wf(),
    ensures
        r == exists|k: int| 0 <= k < seen@.len() && (#[trigger] seen@[k]).cells() == g.cells(),
{
    let mut k: usize = 0;
    while k < seen.len()
        invariant
            g.wf(),
            forall|k0: int| 0 <= k0 < seen@.len() ==> (#[trigger] seen@[k0]).wf(),
            k <= seen@.len(),
            forall|k0: int| 0 <= k0 < k ==> (#[trigger] seen@[k0]).cells() != g.cells(),
        decreases seen@.len() - k,
    {
        if same_colors(&seen[k], g) {
            proof {
                assert(seen@[k as int].cells() == g.cells());
            }
            return true;
        }
        k += 1;
    }
    false
}

/// Copy a move list.
fn copy_moves(v: &Vec<(usize, usize)>) -> (r: Vec<(usize, usize)>)
    ensures
        r@ == v@,
{
    let mut r: Vec<(usize, usize)> = Vec::new();
    let mut k: usize = 0;
    while k < v.len()
        invariant
            k <= v@.len(),
            r@.len() == k,
            forall|x: int| 0 <= x < k ==> #[trigger] r@[x] == v@[x],
        decreases v@.len() - k,
    {
        r.push(v[k]);
        k += 1;
    }
    proof {
        assert(r@ =~= v@);
    }
    r
}

/// `c` is one of the candidates of `orig`.
spec fn from_orig(orig: Seq<Candidate>, c: Candidate) -> bool {
    exists|k0: int| 0 <= k0 < orig.len() && c == #[trigger] orig[k0]
}

/// One scored entry of the search frontier: a board snapshot, the moves that
/// produced it from the starting board, and its heuristic score.
struct Candidate {
    grid: Grid,
    path: Vec<(usize, usize)>,
    score: usize,
}

/// The candidate's board is a faithful, well-shaped replay of its path, and
/// every move of that path was a valid move of the board it hit.
spec fn cand_ok(g0: Cells, c: Candidate) -> bool {
    &&& c.grid.wf()
    &&& rows(c.grid.cells()) == rows(g0)
    &&& cols(c.grid.cells()) == cols(g0)
    &&& path_wf(c.path@, rows(g0), cols(g0))
    &&& path_valid(g0, c.path@)
    &&& c.grid.cells() == replay(g0, c.path@)
}

/// Sort the frontier by score, highest first, keeping the given order among
/// equal scores: repeated extraction of the first maximum.
fn sort_candidates(v: &mut Vec<Candidate>)
    ensures
        final(v)@.len() == old(v)@.len(),
        forall|k1: int, k2: int|
            0 <= k1 < k2 < final(v)@.len() ==> (#[trigger] final(v)@[k1]).score
                >= (#[trigger] final(v)@[k2]).score,
        forall|k: int|
            0 <= k < final(v)@.len() ==> from_orig(old(v)@, #[trigger] final(v)@[k]),
{
    let ghost orig = v@;
    let mut out: Vec<Candidate> = Vec::new();
    proof {
        assert forall|k: int| 0 <= k < v@.len() implies from_orig(
            orig,
            #[trigger] v@[k],
        ) by {
            assert(v@[k] == orig[k]);
        }
    }
    while v.len() > 0
        invariant
            out@.len() + v@.len() == orig.len(),
            forall|k1: int, k2: int|
                0 <= k1 < k2 < out@.len() ==> (#[trigger] out@[k1]).score
                    >= (#[trigger] out@[k2]).score,
            forall|k: int| 0 <= k < out@.len() ==> from_orig(orig, #[trigger] out@[k]),
            forall|k: int| 0 <= k < v@.len() ==> from_orig(orig, #[trigger] v@[k]),
            forall|k1: int, k2: int|
                0 <= k1 < out@.len() && 0 <= k2 < v@.len() ==> (#[trigger] out@[k1]).score
                    >= (#[trigger] v@[k2]).score,
        decreases v@.len(),
    {
        let mut best_idx: usize = 0;
        let mut bi: usize = 1;
        while bi < v.len()
            invariant
                v@.len() > 0,
                best_idx < v@.len(),
                bi <= v@.len(),
                forall|k: int|
                    0 <= k < bi ==> (#[trigger] v@[k]).score <= v@[best_idx as int].score,
            decreases v@.len() - bi,
        {
            if v[bi].score > v[best_idx].score {
                best_idx = bi;
            }
            bi += 1;
        }
        let ghost prev = v@;
        let e = v.remove(best_idx);
        out.push(e);
        proof {
            assert forall|k: int| 0 <= k < v@.len() implies from_orig(
                orig,
                #[trigger] v@[k],
            ) by {
                if k < best_idx {
                    assert(v@[k] == prev[k]);
                } else {
                    assert(v@[k] == prev[k + 1]);
                }
            }
        }
    }
    *v = out;
}

impl Solver {
    /// Solve the grid using beam search. A returned move sequence is made of
    /// valid moves, replaying it from the starting board leaves the board
    /// cleared, and its length never exceeds the depth budget: a partial
    /// sequence is never reported as a solution. A board with no tile left
    /// to select yields the negative result, and a board that one move
    /// clears is always solved, as the first layer tries every move.
    #[verifier::rlimit(100)]
    #[verifier::spinoff_prover]
    pub fn beam_search(&self) -> (r: Option<Vec<(usize, usize)>>)
        requires
            self.wf(),
        ensures
            match r {
                Some(path) => {
                    &&& path_wf(path@, rows(self.grid.cells()), cols(self.grid.cells()))
                    &&& path_valid(self.grid.cells(), path@)
                    &&& all_empty(replay(self.grid.cells(), path@))
                    &&& path@.len() <= self.beam_max_depth
                    &&& path@.len() >= 1 || all_empty(self.grid.cells())
                },
                None => true,
            },
            all_empty(self.grid.cells()) && self.beam_max_depth >= 1 ==> r is None,
            self.beam_max_depth >= 1 && wins_in_one(self.grid.cells()) ==> r is Some,
    {
        let ghost g0 = self.grid.cells();
        let grid = self.grid.duplicate();
        let mut candidates: Vec<Candidate> = Vec::new();
        candidates.push(Candidate { grid, path: Vec::new(), score: 0 });
        proof {
            assert(replay(g0, candidates@[0].path@) == g0);
            assert(path_valid(g0, candidates@[0].path@));
            assert(cand_ok(g0, candidates@[0]));
        }
        let mut seen_grids: Vec<Grid> = Vec::new();
        let mut depth: usize = 0;
        while depth < self.beam_max_depth && candidates.len() > 0
            invariant
                self.wf(),
                g0 == self.grid.cells(),
                depth <= self.beam_max_depth,
                forall|ci: int|
                    0 <= ci < candidates@.len() ==> cand_ok(g0, #[trigger] candidates@[ci]),
                forall|ci: int|
                    0 <= ci < candidates@.len() ==> (#[trigger] candidates@[ci]).path@.len()
                        == depth,
                forall|k: int| 0 <= k < seen_grids@.len() ==> (#[trigger] seen_grids@[k]).wf(),
                forall|k: int|
                    0 <= k < seen_grids@.len() ==> !all_empty(
                        (#[trigger] seen_grids@[k]).cells(),
                    ),
                depth == 0 ==> candidates@.len() == 1 && candidates@[0].grid.cells() == g0,
                depth >= 1 ==> (forall|k: int|
                    0 <= k < all_moves(g0).len() ==> !all_empty(
                        remove_spec(
                            g0,
                            (#[trigger] all_moves(g0)[k]).0 as int,
                            all_moves(g0)[k].1 as int,
                        ),
                    )),
                all_empty(g0) && depth >= 1 ==> candidates@.len() == 0,
            decreases self.beam_max_depth - depth,
        {
            let mut next_candidates: Vec<Candidate> = Vec::new();
            let mut ci: usize = 0;
            while ci < candidates.len()
                invariant
                    self.wf(),
                    g0 == self.grid.cells(),
                    depth < self.beam_max_depth,
                    ci <= candidates@.len(),
                    forall|c: int|
                        0 <= c < candidates@.len() ==> cand_ok(g0, #[trigger] candidates@[c]),
                    forall|c: int|
                        0 <= c < candidates@.len() ==> (#[trigger] candidates@[c]).path@.len()
                            == depth,
                    forall|c: int|
                        0 <= c < next_candidates@.len() ==> cand_ok(
                            g0,
                            #[trigger] next_candidates@[c],
                        ),
                    forall|c: int|
                        0 <= c < next_candidates@.len() ==> (#[trigger] next_candidates@[c])
                            .path@.len() == depth + 1,
                    forall|k: int|
                        0 <= k < seen_grids@.len() ==> (#[trigger] seen_grids@[k]).wf(),
                    forall|k: int|
                        0 <= k < seen_grids@.len() ==> !all_empty(
                            (#[trigger] seen_grids@[k]).cells(),
                        ),
                    depth == 0 ==> candidates@.len() == 1 && candidates@[0].grid.cells() == g0,
                    depth == 0 && ci >= 1 ==> (forall|k: int|
                        0 <= k < all_moves(g0).len() ==> !all_empty(
                            remove_spec(
                                g0,
                                (#[trigger] all_moves(g0)[k]).0 as int,
                                all_moves(g0)[k].1 as int,
                            ),
                        )),
                    all_empty(g0) ==> next_candidates@.len() == 0,
                decreases candidates@.len() - ci,
            {
                let moves_list = candidates[ci].grid.valid_moves();
                let mut mi: usize = 0;
                while mi < moves_list.len()
                    invariant
                        self.wf(),
                        g0 == self.grid.cells(),
                        depth < self.beam_max_depth,
                        ci < candidates@.len(),
                        mi <= moves_list@.len(),
                        forall|c: int|
                            0 <= c < candidates@.len() ==> cand_ok(
                                g0,
                                #[trigger] candidates@[c],
                            ),
                        forall|c: int|
                            0 <= c < candidates@.len() ==> (#[trigger] candidates@[c])
                                .path@.len() == depth,
                        forall|c: int|
                            0 <= c < next_candidates@.len() ==> cand_ok(
                                g0,
                                #[trigger] next_candidates@[c],
                            ),
                        forall|c: int|
                            0 <= c < next_candidates@.len() ==> (#[trigger] next_candidates@[c])
                                .path@.len() == depth + 1,
                        forall|k: int|
                            0 <= k < seen_grids@.len() ==> (#[trigger] seen_grids@[k]).wf(),
                        forall|k: int|
                            0 <= k < seen_grids@.len() ==> !all_empty(
                                (#[trigger] seen_grids@[k]).cells(),
                            ),
                        moves_list@ == all_moves(candidates@[ci as int].grid.cells()),
                        forall|k: int|
                            0 <= k < moves_list@.len() ==> occupied(
                                candidates@[ci as int].grid.cells(),
                                #[trigger] moves_list@[k].0 as int,
                                moves_list@[k].1 as int,
                            ),
                        depth == 0 ==> candidates@.len() == 1 && candidates@[0].grid.cells()
                            == g0,
                        depth == 0 ==> (forall|k: int|
                            0 <= k < mi ==> !all_empty(
                                remove_spec(
                                    g0,
                                    (#[trigger] all_moves(g0)[k]).0 as int,
                                    all_moves(g0)[k].1 as int,
                                ),
                            )),
                        all_empty(g0) ==> next_candidates@.len() == 0,
                    decreases moves_list@.len() - mi,
                {
                    let (row, col) = moves_list[mi];
                    let ghost cand = candidates@[ci as int];
                    proof {
                        // a board with a move to make is not cleared
                        if all_empty(g0) {
                            lemma_replay_empty(g0, cand.path@);
                            assert(occupied(g0, row as int, col as int));
                            assert(false);
                        }
                    }
                    let mut new_grid = candidates[ci].grid.duplicate();
                    proof {
                        assert(new_grid.wf());
                        assert(in_bounds(new_grid.cells(), row as int, col as int));
                    }
                    new_grid.remove(row, col);
                    proof {
                        lemma_replay_push(g0, cand.path@, (row, col));
                    }
                    if !contains_grid(&seen_grids, &new_grid) {
                        seen_grids.push(new_grid.duplicate());
                        let mut new_path = copy_moves(&candidates[ci].path);
                        new_path.push((row, col));
                        proof {
                            assert(new_grid.cells() == replay(g0, new_path@));
                            assert(path_wf(new_path@, rows(g0), cols(g0)));
                            lemma_path_valid_push(g0, cand.path@, (row, col));
                        }
                        if new_grid.is_solved() {
                            return Some(new_path);
                        }
                        proof {
                            assert(scorable(new_grid.cells()));
                        }
                        let sc = lookahead_score(&new_grid, 3, depth + 1);
                        next_candidates.push(
                            Candidate { grid: new_grid, path: new_path, score: sc },
                        );
                    } else {
                        proof {
                            // the successor was seen, and nothing seen is a
                            // cleared board: it was checked when recorded
                            let k = choose|k: int|
                                0 <= k < seen_grids@.len() && (#[trigger] seen_grids@[k]).cells()
                                    == new_grid.cells();
                            assert(!all_empty(new_grid.cells()));
                        }
                    }
                    mi += 1;
                }
                ci += 1;
            }
            let ghost before_sort = next_candidates@;
            sort_candidates(&mut next_candidates);
            proof {
                assert forall|c: int| 0 <= c < next_candidates@.len() implies cand_ok(
                    g0,
                    #[trigger] next_candidates@[c],
                ) && next_candidates@[c].path@.len() == depth + 1 by {
                    assert(from_orig(before_sort, next_candidates@[c]));
                    let k0 = choose|k0: int|
                        0 <= k0 < before_sort.len() && next_candidates@[c] == before_sort[k0];
                    assert(cand_ok(g0, before_sort[k0]));
                }
            }
            next_candidates.truncate(self.beam_width);
            candidates = next_candidates;
            depth += 1;
        }
        proof {
            if self.beam_max_depth >= 1 {
                assert(depth >= 1);
            }
        }
        let mut fi: usize = 0;
        while fi < candidates.len()
            invariant
                self.wf(),
                g0 == self.grid.cells(),
                fi <= candidates@.len(),
                forall|c: int|
                    0 <= c < candidates@.len() ==> cand_ok(g0, #[trigger] candidates@[c]),
                forall|c: int|
                    0 <= c < candidates@.len() ==> (#[trigger] candidates@[c]).path@.len()
                        <= self.beam_max_depth,
                self.beam_max_depth >= 1 ==> (forall|k: int|
                    0 <= k < all_moves(g0).len() ==> !all_empty(
                        remove_spec(
                            g0,
                            (#[trigger] all_moves(g0)[k]).0 as int,
                            all_moves(g0)[k].1 as int,
                        ),
                    )),
                all_empty(g0) && self.beam_max_depth >= 1 ==> candidates@.len() == 0,
            decreases candidates@.len() - fi,
        {
            if candidates[fi].grid.is_solved() {
                let path = copy_moves(&candidates[fi].path);
                proof {
                    if path@.len() == 0 {
                        assert(replay(g0, path@) == g0);
                    }
                }
                return Some(path);
            }
            fi += 1;
        }
        proof {
            if self.beam_max_depth >= 1 && wins_in_one(g0) {
                let k = choose|k: int|
                    0 <= k < all_moves(g0).len() && all_empty(
                        remove_spec(
                            g0,
                            (#[trigger] all_moves(g0)[k]).0 as int,
                            all_moves(g0)[k].1 as int,
                        ),
                    );
                assert(false);
            }
        }
        None
    }
}

} // verus!
