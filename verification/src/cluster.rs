//! The read-only cluster queries: the size of the largest same-color
//! connected region and the number of distinct regions. Both scan the board
//! with a visited-marker overlay and flood each region once, without ever
//! mutating the board — distinct from the clearing pass of `remove`.

use vstd::prelude::*;

use crate::cells::{
    adj, all_empty, cluster_set, cluster_size, cluster_count_spec, color_at, cols,
    earlier, first_of_cluster, grid_count, has_color, in_bounds, lemma_closed_contains_reach,
    lemma_cluster_size_pos, lemma_grid_count_empty, lemma_grid_count_insert, lemma_grid_count_range,
    lemma_reach_color, lemma_reach_refl, lemma_reach_step, lemma_reach_sym, lemma_reach_trans,
    lemma_same_cluster, occupied, reach, rows, Cells,
};
use crate::color::Color;
use crate::grid::Grid;

verus! {

/// The value of a visited-marker overlay.
spec fn omat(v: Vec<Vec<bool>>) -> Seq<Seq<bool>> {
    Seq::new(v@.len(), |i: int| v@[i]@)
}

/// The overlay marks coordinate `t`.
spec fn vis(v: Seq<Seq<bool>>, t: (int, int)) -> bool {
    0 <= t.0 < v.len() && 0 <= t.1 < v[t.0].len() && v[t.0][t.1]
}

/// The overlay has one marker per board cell.
spec fn overlay_wf(v: Seq<Seq<bool>>, g: Cells) -> bool {
    v.len() == rows(g) && forall|i: int| 0 <= i < v.len() ==> (#[trigger] v[i]).len() == cols(g)
}

/// Some entry of the work list names the coordinate `y`.
spec fn in_stack(st: Seq<(usize, usize)>, y: (int, int)) -> bool {
    exists|idx: int| 0 <= idx < st.len() && ((#[trigger] st[idx]).0 as int, st[idx].1 as int) == y
}

/// A flood from `s` turned the overlay `vold` into `vnew`: it added exactly
/// the cells of `s`'s connected same-color region.
spec fn flood_marks(vold: Seq<Seq<bool>>, vnew: Seq<Seq<bool>>, g: Cells, s: (int, int)) -> bool {
    forall|t: (int, int)|
        #![trigger vis(vnew, t)]
        vis(vnew, t) <==> vis(vold, t) || reach(g, color_at(g, s.0, s.1), s, t)
}

/// Marked cells are occupied and closed under same-color reachability.
spec fn vis_closed(v: Seq<Seq<bool>>, g: Cells) -> bool {
    &&& forall|t: (int, int)| vis(v, t) ==> occupied(g, t.0, t.1)
    &&& forall|t: (int, int), u: (int, int)|
        vis(v, t) && #[trigger] reach(g, color_at(g, t.0, t.1), t, u) ==> vis(v, u)
}

/// A fresh overlay with one unset marker per cell.
fn blank_overlay(rows_n: usize, cols_n: usize) -> (v: Vec<Vec<bool>>)
    ensures
        omat(v).len() == rows_n,
        forall|i: int| 0 <= i < rows_n ==> (#[trigger] omat(v)[i]).len() == cols_n,
        forall|t: (int, int)| !vis(omat(v), t),
{
    let mut v: Vec<Vec<bool>> = Vec::new();
    let mut i: usize = 0;
    while i < rows_n
        invariant
            v@.len() == i,
            i <= rows_n,
            forall|r: int| 0 <= r < i ==> (#[trigger] v@[r]@).len() == cols_n,
            forall|t: (int, int)| !vis(omat(v), t),
        decreases rows_n - i,
    {
        let mut row: Vec<bool> = Vec::new();
        let mut j: usize = 0;
        while j < cols_n
            invariant
                row@.len() == j,
                j <= cols_n,
                forall|c: int| 0 <= c < j ==> !(#[trigger] row@[c]),
            decreases cols_n - j,
        {
            row.push(false);
            j += 1;
        }
        let ghost vprev = omat(v);
        v.push(row);
        proof {
            assert forall|t: (int, int)| !vis(omat(v), t) by {
                if 0 <= t.0 < omat(v).len() {
                    if t.0 == i as int {
                        assert(omat(v)[t.0] == row@);
                    } else {
                        assert(omat(v)[t.0] == vprev[t.0]);
                        assert(!vis(vprev, t));
                    }
                }
            }
        }
        i += 1;
    }
    v
}

impl Grid {
    /// Flood the connected same-color region of the occupied, unvisited cell
    /// `(row, col)`, marking every cell of it visited, and return its size.
    #[verifier::rlimit(100)]
    #[verifier::spinoff_prover]
    fn measure_cluster(&self, row: usize, col: usize, visited: &mut Vec<Vec<bool>>) -> (n: usize)
        requires
            self.wf(),
            occupied(self.cells(), row as int, col as int),
            overlay_wf(omat(*old(visited)), self.cells()),
            forall|t: (int, int)|
                reach(
                    self.cells(),
                    color_at(self.cells(), row as int, col as int),
                    (row as int, col as int),
                    t,
                ) ==> !vis(omat(*old(visited)), t),
        ensures
            overlay_wf(omat(*final(visited)), self.cells()),
            flood_marks(
                omat(*old(visited)),
                omat(*final(visited)),
                self.cells(),
                (row as int, col as int),
            ),
            n == cluster_size(self.cells(), (row as int, col as int)),
    {
        let rows_n = self.colors.len();
        let cols_n = self.col_count();
        let ghost g = self.cells();
        let ghost src = (row as int, col as int);
        let ghost vold = omat(*visited);
        let k = self.colors[row][col].unwrap();
        let mut stack: Vec<(usize, usize)> = Vec::new();
        stack.push((row, col));
        let ghost mut marked: Set<(int, int)> = Set::empty();
        let mut n: usize = 0;
        proof {
            lemma_reach_refl(g, k, src);
            assert(stack@[0] == (row, col));
            assert(in_stack(stack@, src));
            lemma_grid_count_range(marked, rows(g), cols(g));
            lemma_grid_count_empty(marked, rows(g), cols(g));
        }
        while stack.len() > 0
            invariant
                self.wf(),
                g == self.cells(),
                rows_n == rows(g),
                cols_n == cols(g),
                has_color(g, src, k),
                src == (row as int, col as int),
                k == color_at(g, src.0, src.1),
                overlay_wf(omat(*visited), g),
                forall|t: (int, int)|
                    vis(omat(*visited), t) <==> vis(vold, t) || marked.contains(t),
                forall|t: (int, int)|
                    marked.contains(t) ==> has_color(g, t, k) && reach(g, k, src, t),
                forall|t: (int, int)| reach(g, k, src, t) ==> !vis(vold, t),
                forall|idx: int|
                    0 <= idx < stack@.len() ==> in_bounds(
                        g,
                        (#[trigger] stack@[idx]).0 as int,
                        stack@[idx].1 as int,
                    ) && ((stack@[idx].0 as int, stack@[idx].1 as int) == src || exists|
                        x: (int, int),
                    |
                        marked.contains(x) && adj(
                            x,
                            (stack@[idx].0 as int, stack@[idx].1 as int),
                        )),
                forall|x: (int, int), y: (int, int)|
                    marked.contains(x) && adj(x, y) && has_color(g, y, k) ==> marked.contains(y)
                        || in_stack(stack@, y),
                marked.contains(src) || in_stack(stack@, src),
                n == grid_count(marked, rows(g), cols(g)),
                0 <= n <= rows(g) * cols(g),
            decreases (rows(g) * cols(g) - n) * 5 + stack@.len(),
        {
            let ghost prev_overlay = omat(*visited);
            let ghost prev_stack = stack@;
            let ghost prev_marked = marked;
            let rc = stack.pop().unwrap();
            let r = rc.0;
            let c = rc.1;
            let ghost y0 = (r as int, c as int);
            proof {
                assert(prev_stack[prev_stack.len() - 1] == rc);
                assert(in_bounds(g, y0.0, y0.1));
                assert(r < self.colors@.len());
                assert(self.cells()[r as int].len() == cols(g));
                assert(omat(*visited)[r as int].len() == cols(g));
                assert(c < visited@[r as int]@.len());
            }
            let seen = visited[r][c];
            let cell = self.colors[r][c];
            let hit = !seen && match cell {
                Some(x) => x == k,
                None => false,
            };
            proof {
                assert(self.cells()[y0.0][y0.1] == cell);
                assert(seen == vis(omat(*visited), y0));
            }
            if hit {
                proof {
                    assert(!marked.contains(y0));
                    assert(has_color(g, y0, k));
                    if y0 == src {
                        lemma_reach_refl(g, k, src);
                    } else {
                        let x = choose|x: (int, int)| marked.contains(x) && adj(x, y0);
                        lemma_reach_step(g, k, src, x, y0);
                    }
                    assert(reach(g, k, src, y0));
                    lemma_grid_count_insert(marked, y0, rows(g), cols(g), rows(g));
                    lemma_grid_count_range(marked.insert(y0), rows(g), cols(g));
                }
                visited[r][c] = true;
                n += 1;
                proof {
                    assert(omat(*visited) =~~= prev_overlay.update(
                        r as int,
                        prev_overlay[r as int].update(c as int, true),
                    ));
                    marked = marked.insert(y0);
                }
                if r > 0 {
                    stack.push((r - 1, c));
                }
                if r + 1 < rows_n {
                    stack.push((r + 1, c));
                }
                if c > 0 {
                    stack.push((r, c - 1));
                }
                if c + 1 < cols_n {
                    stack.push((r, c + 1));
                }
                proof {
                    assert forall|y: (int, int)| adj(y0, y) && in_bounds(g, y.0, y.1)
                        implies in_stack(stack@, y) by {
                        if y == (y0.0 - 1, y0.1) {
                            assert(stack@[prev_stack.len() - 1] == ((r - 1) as usize, c));
                        } else if y == (y0.0 + 1, y0.1) {
                            let idx = stack@.len() - (if y0.1 - 1 >= 0 { 1int } else { 0 }) - (
                            if y0.1 + 1 < cols_n { 1int } else { 0 }) - 1;
                            assert(stack@[idx] == ((r + 1) as usize, c));
                        } else if y == (y0.0, y0.1 - 1) {
                            let idx = stack@.len() - (if y0.1 + 1 < cols_n { 1int } else { 0 })
                                - 1;
                            assert(stack@[idx] == (r, (c - 1) as usize));
                        } else if y == (y0.0, y0.1 + 1) {
                            assert(stack@[stack@.len() - 1] == (r, (c + 1) as usize));
                        }
                    }
                    assert forall|y: (int, int)| in_stack(prev_stack, y) && y != y0
                        implies in_stack(stack@, y) by {
                        let idx = choose|idx: int|
                            0 <= idx < prev_stack.len() && ((#[trigger] prev_stack[idx]).0 as int,
                            prev_stack[idx].1 as int) == y;
                        if idx < prev_stack.len() - 1 {
                            assert(stack@[idx] == prev_stack[idx]);
                        }
                    }
                    assert forall|idx: int| 0 <= idx < stack@.len() implies in_bounds(
                        g,
                        (#[trigger] stack@[idx]).0 as int,
                        stack@[idx].1 as int,
                    ) && ((stack@[idx].0 as int, stack@[idx].1 as int) == src || exists|
                        x: (int, int),
                    |
                        marked.contains(x) && adj(
                            x,
                            (stack@[idx].0 as int, stack@[idx].1 as int),
                        )) by {
                        let y = (stack@[idx].0 as int, stack@[idx].1 as int);
                        if idx < prev_stack.len() - 1 {
                            assert(stack@[idx] == prev_stack[idx]);
                            if y != src {
                                let x = choose|x: (int, int)|
                                    prev_marked.contains(x) && adj(x, y);
                                assert(marked.contains(x) && adj(x, y));
                            }
                        } else {
                            assert(marked.contains(y0));
                            assert(adj(y0, y));
                            assert(marked.contains(y0) && adj(y0, y));
                        }
                    }
                }
            } else {
                proof {
                    if has_color(g, y0, k) {
                        if y0 == src {
                            lemma_reach_refl(g, k, src);
                        } else {
                            let x = choose|x: (int, int)| marked.contains(x) && adj(x, y0);
                            lemma_reach_step(g, k, src, x, y0);
                        }
                        assert(reach(g, k, src, y0));
                        assert(!vis(vold, y0));
                        assert(seen);
                        assert(marked.contains(y0));
                    }
                    assert forall|y: (int, int)| in_stack(prev_stack, y) && y != y0
                        implies in_stack(stack@, y) by {
                        let idx = choose|idx: int|
                            0 <= idx < prev_stack.len() && ((#[trigger] prev_stack[idx]).0 as int,
                            prev_stack[idx].1 as int) == y;
                        if idx < prev_stack.len() - 1 {
                            assert(stack@[idx] == prev_stack[idx]);
                        }
                    }
                }
            }
        }
        proof {
            lemma_closed_contains_reach(g, k, src, marked);
            assert forall|t: (int, int)| #[trigger] cluster_set(g, src).contains(t)
                implies marked.contains(t) by {
                assert(reach(g, k, src, t));
            }
            assert forall|t: (int, int)| #[trigger] marked.contains(t) implies cluster_set(
                g,
                src,
            ).contains(t) by {
                assert(reach(g, k, src, t));
            }
            assert(marked =~= cluster_set(g, src));
            assert(n == cluster_size(self.cells(), (row as int, col as int)));
            assert forall|t: (int, int)|
                #![trigger vis(omat(*visited), t)]
                vis(omat(*visited), t) <==> vis(vold, t) || reach(
                    g,
                    color_at(g, src.0, src.1),
                    src,
                    t,
                ) by {
                assert(marked.contains(t) == cluster_set(g, src).contains(t));
            }
            assert(flood_marks(vold, omat(*visited), g, src));
        }
        n
    }

    /// The size of the largest same-color connected region on the board:
    /// an auxiliary flood traversal over a visited-marker overlay, reading
    /// every region exactly once.
    #[verifier::rlimit(100)]
    #[verifier::spinoff_prover]
    pub fn largest_cluster(&self) -> (m: usize)
        requires
            self.wf(),
        ensures
            forall|s: (int, int)|
                occupied(self.cells(), s.0, s.1) ==> cluster_size(self.cells(), s) <= m,
            all_empty(self.cells()) ==> m == 0,
            !all_empty(self.cells()) ==> exists|s: (int, int)|
                occupied(self.cells(), s.0, s.1) && cluster_size(self.cells(), s) == m,
    {
        let rows_n = self.colors.len();
        let cols_n = self.col_count();
        let ghost g = self.cells();
        let mut visited = blank_overlay(rows_n, cols_n);
        let mut mx: usize = 0;
        let mut i: usize = 0;
        while i < rows_n
            invariant
                self.wf(),
                g == self.cells(),
                rows_n == rows(g),
                cols_n == cols(g),
                i <= rows_n,
                overlay_wf(omat(visited), g),
                vis_closed(omat(visited), g),
                forall|t: (int, int)|
                    vis(omat(visited), t) ==> cluster_size(g, t) <= mx,
                forall|a: (int, int)|
                    earlier(a, (i as int, 0)) && occupied(g, a.0, a.1) ==> vis(omat(visited), a),
                mx == 0 || exists|s: (int, int)|
                    occupied(g, s.0, s.1) && cluster_size(g, s) == mx,
            decreases rows_n - i,
        {
            let mut j: usize = 0;
            while j < cols_n
                invariant
                    self.wf(),
                    g == self.cells(),
                    rows_n == rows(g),
                    cols_n == cols(g),
                    i < rows_n,
                    j <= cols_n,
                    overlay_wf(omat(visited), g),
                    vis_closed(omat(visited), g),
                    forall|t: (int, int)|
                        vis(omat(visited), t) ==> cluster_size(g, t) <= mx,
                    forall|a: (int, int)|
                        earlier(a, (i as int, j as int)) && occupied(g, a.0, a.1) ==> vis(
                            omat(visited),
                            a,
                        ),
                    mx == 0 || exists|s: (int, int)|
                        occupied(g, s.0, s.1) && cluster_size(g, s) == mx,
                decreases cols_n - j,
            {
                proof {
                    assert(self.cells()[i as int].len() == cols(g));
                    assert(omat(visited)[i as int].len() == cols(g));
                }
                let seen = visited[i][j];
                let cell = self.colors[i][j];
                proof {
                    assert(cell == g[i as int][j as int]);
                    assert(seen == vis(omat(visited), (i as int, j as int)));
                }
                if cell.is_some() && !seen {
                    let ghost src = (i as int, j as int);
                    let ghost k0 = color_at(g, src.0, src.1);
                    proof {
                        assert(occupied(g, src.0, src.1));
                        assert forall|t: (int, int)| reach(g, k0, src, t) implies !vis(
                            omat(visited),
                            t,
                        ) by {
                            if vis(omat(visited), t) {
                                lemma_reach_color(g, k0, src, t);
                                lemma_reach_sym(g, k0, src, t);
                                assert(color_at(g, t.0, t.1) == k0);
                                assert(vis(omat(visited), src));
                                assert(false);
                            }
                        }
                    }
                    let ghost vprev = omat(visited);
                    let n = self.measure_cluster(i, j, &mut visited);
                    proof {
                        lemma_cluster_size_pos(g, src);
                    }
                    if n > mx {
                        mx = n;
                    }
                    proof {
                        assert forall|t: (int, int)| vis(omat(visited), t) implies occupied(
                            g,
                            t.0,
                            t.1,
                        ) && cluster_size(g, t) <= mx by {
                            if vis(vprev, t) {
                                assert(cluster_size(g, t) <= mx);
                            } else {
                                assert(reach(g, k0, src, t));
                                lemma_reach_color(g, k0, src, t);
                                lemma_same_cluster(g, src, t);
                                assert(cluster_size(g, t) == n);
                            }
                        }
                        assert forall|t: (int, int), u: (int, int)|
                            vis(omat(visited), t) && #[trigger] reach(
                                g,
                                color_at(g, t.0, t.1),
                                t,
                                u,
                            ) implies vis(omat(visited), u) by {
                            if vis(vprev, t) {
                                assert(vis(vprev, u));
                            } else {
                                assert(reach(g, k0, src, t));
                                lemma_reach_color(g, k0, src, t);
                                assert(color_at(g, t.0, t.1) == k0);
                                lemma_reach_trans(g, k0, src, t, u);
                            }
                        }
                        lemma_reach_refl(g, k0, src);
                        assert(vis(omat(visited), src));
                    }
                } else {
                    proof {
                        if cell.is_some() {
                            assert(vis(omat(visited), (i as int, j as int)));
                        }
                    }
                }
                proof {
                    assert forall|a: (int, int)|
                        earlier(a, (i as int, j + 1)) && occupied(g, a.0, a.1) implies vis(
                        omat(visited),
                        a,
                    ) by {
                        if a != (i as int, j as int) {
                            assert(earlier(a, (i as int, j as int)));
                        }
                    }
                }
                j += 1;
            }
            proof {
                assert forall|a: (int, int)|
                    earlier(a, (i + 1, 0)) && occupied(g, a.0, a.1) implies vis(
                    omat(visited),
                    a,
                ) by {
                    assert(in_bounds(g, a.0, a.1));
                    assert(earlier(a, (i as int, cols_n as int)));
                }
            }
            i += 1;
        }
        proof {
            assert forall|s: (int, int)| occupied(g, s.0, s.1) implies cluster_size(g, s)
                <= mx by {
                assert(earlier(s, (rows_n as int, 0)));
                assert(vis(omat(visited), s));
            }
            if !all_empty(g) {
                let (rr, cc) = choose|rr: int, cc: int| in_bounds(g, rr, cc) && g[rr][cc] is Some;
                assert(occupied(g, rr, cc));
                assert(vis(omat(visited), (rr, cc)));
                lemma_cluster_size_pos(g, (rr, cc));
                assert(mx >= 1);
            }
            if all_empty(g) && mx != 0 {
                let s = choose|s: (int, int)| occupied(g, s.0, s.1) && cluster_size(g, s) == mx;
                assert(g[s.0][s.1] is None);
                assert(false);
            }
        }
        mx
    }

    /// The number of distinct same-color connected regions on the board:
    /// the same overlay scan as `largest_cluster`, counting one
    /// representative — the row-major-first cell — per region.
    #[verifier::rlimit(100)]
    #[verifier::spinoff_prover]
    pub fn cluster_count(&self) -> (n: usize)
        requires
            self.wf(),
        ensures
            n == cluster_count_spec(self.cells()),
    {
        let rows_n = self.colors.len();
        let cols_n = self.col_count();
        let ghost g = self.cells();
        let mut visited = blank_overlay(rows_n, cols_n);
        let mut n: usize = 0;
        proof {
            lemma_grid_count_empty(
                Set::new(|s: (int, int)| first_of_cluster(g, s) && earlier(s, (0, 0))),
                rows(g),
                cols(g),
            );
        }
        let mut i: usize = 0;
        while i < rows_n
            invariant
                self.wf(),
                g == self.cells(),
                rows_n == rows(g),
                cols_n == cols(g),
                i <= rows_n,
                overlay_wf(omat(visited), g),
                vis_closed(omat(visited), g),
                forall|t: (int, int)|
                    vis(omat(visited), t) ==> exists|a: (int, int)|
                        earlier(a, (i as int, 0)) && occupied(g, a.0, a.1) && reach(
                            g,
                            color_at(g, a.0, a.1),
                            a,
                            t,
                        ),
                forall|a: (int, int)|
                    earlier(a, (i as int, 0)) && occupied(g, a.0, a.1) ==> vis(omat(visited), a),
                n == grid_count(
                    Set::new(
                        |s: (int, int)| first_of_cluster(g, s) && earlier(s, (i as int, 0)),
                    ),
                    rows(g),
                    cols(g),
                ),
                0 <= n <= rows(g) * cols(g),
            decreases rows_n - i,
        {
            let mut j: usize = 0;
            while j < cols_n
                invariant
                    self.wf(),
                    g == self.cells(),
                    rows_n == rows(g),
                    cols_n == cols(g),
                    i < rows_n,
                    j <= cols_n,
                    overlay_wf(omat(visited), g),
                    vis_closed(omat(visited), g),
                    forall|t: (int, int)|
                        vis(omat(visited), t) ==> exists|a: (int, int)|
                            earlier(a, (i as int, j as int)) && occupied(g, a.0, a.1) && reach(
                                g,
                                color_at(g, a.0, a.1),
                                a,
                                t,
                            ),
                    forall|a: (int, int)|
                        earlier(a, (i as int, j as int)) && occupied(g, a.0, a.1) ==> vis(
                            omat(visited),
                            a,
                        ),
                    n == grid_count(
                        Set::new(
                            |s: (int, int)|
                                first_of_cluster(g, s) && earlier(s, (i as int, j as int)),
                        ),
                        rows(g),
                        cols(g),
                    ),
                    0 <= n <= rows(g) * cols(g),
                decreases cols_n - j,
            {
                let ghost pos = (i as int, j as int);
                let ghost sold = Set::new(
                    |s: (int, int)| first_of_cluster(g, s) && earlier(s, pos),
                );
                let ghost snew = Set::new(
                    |s: (int, int)| first_of_cluster(g, s) && earlier(s, (i as int, j + 1)),
                );
                proof {
                    assert(self.cells()[i as int].len() == cols(g));
                    assert(omat(visited)[i as int].len() == cols(g));
                }
                let seen = visited[i][j];
                let cell = self.colors[i][j];
                proof {
                    assert(cell == g[i as int][j as int]);
                    assert(seen == vis(omat(visited), pos));
                }
                if cell.is_some() && !seen {
                    let ghost k0 = color_at(g, pos.0, pos.1);
                    proof {
                        assert(occupied(g, pos.0, pos.1));
                        // this cell heads a region not seen before
                        assert forall|a: (int, int)| earlier(a, pos) implies !reach(
                            g,
                            k0,
                            pos,
                            a,
                        ) by {
                            if reach(g, k0, pos, a) {
                                lemma_reach_color(g, k0, pos, a);
                                lemma_reach_sym(g, k0, pos, a);
                                assert(vis(omat(visited), a));
                                assert(color_at(g, a.0, a.1) == k0);
                                assert(vis(omat(visited), pos));
                                assert(false);
                            }
                        }
                        assert(first_of_cluster(g, pos));
                        // the new scan position admits exactly this one new head
                        assert(!sold.contains(pos));
                        assert forall|s: (int, int)| #[trigger] snew.contains(s) implies
                            sold.insert(pos).contains(s) by {
                            if s != pos {
                                assert(earlier(s, pos));
                            }
                        }
                        assert(snew =~= sold.insert(pos));
                        lemma_grid_count_insert(sold, pos, rows(g), cols(g), rows(g));
                        lemma_grid_count_range(snew, rows(g), cols(g));
                        // flooding is safe: the region is disjoint from the overlay
                        assert forall|t: (int, int)| reach(g, k0, pos, t) implies !vis(
                            omat(visited),
                            t,
                        ) by {
                            if vis(omat(visited), t) {
                                lemma_reach_color(g, k0, pos, t);
                                lemma_reach_sym(g, k0, pos, t);
                                assert(color_at(g, t.0, t.1) == k0);
                                assert(vis(omat(visited), pos));
                                assert(false);
                            }
                        }
                    }
                    let ghost vprev = omat(visited);
                    let _ = self.measure_cluster(i, j, &mut visited);
                    n += 1;
                    proof {
                        assert forall|t: (int, int), u: (int, int)|
                            vis(omat(visited), t) && #[trigger] reach(
                                g,
                                color_at(g, t.0, t.1),
                                t,
                                u,
                            ) implies vis(omat(visited), u) by {
                            if vis(vprev, t) {
                                assert(vis(vprev, u));
                            } else {
                                assert(reach(g, k0, pos, t));
                                lemma_reach_color(g, k0, pos, t);
                                assert(color_at(g, t.0, t.1) == k0);
                                lemma_reach_trans(g, k0, pos, t, u);
                            }
                        }
                        assert forall|t: (int, int)| vis(omat(visited), t) implies occupied(
                            g,
                            t.0,
                            t.1,
                        ) by {
                            if !vis(vprev, t) {
                                lemma_reach_color(g, k0, pos, t);
                            }
                        }
                        assert forall|t: (int, int)| vis(omat(visited), t) implies exists|
                            a: (int, int),
                        |
                            earlier(a, (i as int, j + 1)) && occupied(g, a.0, a.1) && reach(
                                g,
                                color_at(g, a.0, a.1),
                                a,
                                t,
                            ) by {
                            if vis(vprev, t) {
                                let a = choose|a: (int, int)|
                                    earlier(a, pos) && occupied(g, a.0, a.1) && reach(
                                        g,
                                        color_at(g, a.0, a.1),
                                        a,
                                        t,
                                    );
                                assert(earlier(a, (i as int, j + 1)) && occupied(g, a.0, a.1)
                                    && reach(g, color_at(g, a.0, a.1), a, t));
                            } else {
                                assert(reach(g, k0, pos, t));
                                assert(earlier(pos, (i as int, j + 1)) && occupied(
                                    g,
                                    pos.0,
                                    pos.1,
                                ) && reach(g, color_at(g, pos.0, pos.1), pos, t));
                            }
                        }
                        lemma_reach_refl(g, k0, pos);
                        assert(vis(omat(visited), pos));
                    }
                } else {
                    proof {
                        // no new head here: either empty, or its region was
                        // reached from an earlier cell
                        if cell.is_some() {
                            assert(vis(omat(visited), pos));
                            let a = choose|a: (int, int)|
                                earlier(a, pos) && occupied(g, a.0, a.1) && reach(
                                    g,
                                    color_at(g, a.0, a.1),
                                    a,
                                    pos,
                                );
                            lemma_reach_color(g, color_at(g, a.0, a.1), a, pos);
                            lemma_reach_sym(g, color_at(g, a.0, a.1), a, pos);
                            assert(color_at(g, pos.0, pos.1) == color_at(g, a.0, a.1));
                            assert(reach(g, color_at(g, pos.0, pos.1), pos, a));
                            assert(!first_of_cluster(g, pos));
                        } else {
                            assert(!first_of_cluster(g, pos));
                        }
                        assert forall|s: (int, int)| #[trigger] snew.contains(s) implies
                            sold.contains(s) by {
                            if s != pos {
                                assert(earlier(s, pos));
                            }
                        }
                        assert(snew =~= sold);
                        assert forall|t: (int, int)| vis(omat(visited), t) implies exists|
                            a: (int, int),
                        |
                            earlier(a, (i as int, j + 1)) && occupied(g, a.0, a.1) && reach(
                                g,
                                color_at(g, a.0, a.1),
                                a,
                                t,
                            ) by {
                            let a = choose|a: (int, int)|
                                earlier(a, pos) && occupied(g, a.0, a.1) && reach(
                                    g,
                                    color_at(g, a.0, a.1),
                                    a,
                                    t,
                                );
                            assert(earlier(a, (i as int, j + 1)) && occupied(g, a.0, a.1)
                                && reach(g, color_at(g, a.0, a.1), a, t));
                        }
                    }
                }
                proof {
                    assert forall|a: (int, int)|
                        earlier(a, (i as int, j + 1)) && occupied(g, a.0, a.1) implies vis(
                        omat(visited),
                        a,
                    ) by {
                        if a != pos {
                            assert(earlier(a, pos));
                        }
                    }
                }
                j += 1;
            }
            proof {
                assert forall|a: (int, int)|
                    earlier(a, (i + 1, 0)) && occupied(g, a.0, a.1) implies vis(
                    omat(visited),
                    a,
                ) by {
                    assert(in_bounds(g, a.0, a.1));
                    assert(earlier(a, (i as int, cols_n as int)));
                }
                assert forall|t: (int, int)| vis(omat(visited), t) implies exists|a: (int, int)|
                    earlier(a, (i + 1, 0)) && occupied(g, a.0, a.1) && reach(
                        g,
                        color_at(g, a.0, a.1),
                        a,
                        t,
                    ) by {
                    let a = choose|a: (int, int)|
                        earlier(a, (i as int, cols_n as int)) && occupied(g, a.0, a.1) && reach(
                            g,
                            color_at(g, a.0, a.1),
                            a,
                            t,
                        );
                    assert(earlier(a, (i + 1, 0)) && occupied(g, a.0, a.1) && reach(
                        g,
                        color_at(g, a.0, a.1),
                        a,
                        t,
                    ));
                }
                let ghost srow = Set::new(
                    |s: (int, int)| first_of_cluster(g, s) && earlier(s, (i + 1, 0)),
                );
                let ghost send = Set::new(
                    |s: (int, int)|
                        first_of_cluster(g, s) && earlier(s, (i as int, cols_n as int)),
                );
                assert forall|s: (int, int)| #[trigger] srow.contains(s) implies send.contains(
                    s,
                ) by {
                    assert(in_bounds(g, s.0, s.1));
                }
                assert(srow =~= send);
            }
            i += 1;
        }
        proof {
            let ghost sfin = Set::new(
                |s: (int, int)| first_of_cluster(g, s) && earlier(s, (rows_n as int, 0)),
            );
            let ghost sall = Set::new(|s: (int, int)| first_of_cluster(g, s));
            assert forall|s: (int, int)| #[trigger] sall.contains(s) implies sfin.contains(
                s,
            ) by {
                assert(in_bounds(g, s.0, s.1));
            }
            assert(sfin =~= sall);
        }
        n
    }
}

} // verus!
