//! The mathematical model of a board: a sequence of rows of optional colors,
//! with the specifications of flood clearing, gravity compaction, and the
//! connectivity relation that both the mutating removal and the read-only
//! cluster queries are stated over.

use vstd::prelude::*;

use crate::color::Color;

verus! {

/// The value of a board's contents: rows of optional colors, top to bottom.
pub type Cells = Seq<Seq<Option<Color>>>;

/// Number of rows.
pub open spec fn rows(g: Cells) -> int {
    g.len() as int
}

/// Number of columns, read off the first row.
pub open spec fn cols(g: Cells) -> int {
    if g.len() == 0 {
        0
    } else {
        g[0].len() as int
    }
}

/// Every row has the same length: the shape invariant of a board.
pub open spec fn rect(g: Cells) -> bool {
    forall|i: int| 0 <= i < g.len() ==> (#[trigger] g[i]).len() == cols(g)
}

/// `(r, c)` lies on the board.
pub open spec fn in_bounds(g: Cells, r: int, c: int) -> bool {
    0 <= r < rows(g) && 0 <= c < cols(g)
}

/// `(r, c)` lies on the board and holds a color.
pub open spec fn occupied(g: Cells, r: int, c: int) -> bool {
    in_bounds(g, r, c) && g[r][c] is Some
}

/// The color at an occupied cell.
pub open spec fn color_at(g: Cells, r: int, c: int) -> Color
    recommends
        occupied(g, r, c),
{
    g[r][c]->Some_0
}

/// `p` lies on the board and holds exactly the color `k`.
pub open spec fn has_color(g: Cells, p: (int, int), k: Color) -> bool {
    in_bounds(g, p.0, p.1) && g[p.0][p.1] == Some(k)
}

/// The board is cleared: no cell holds a color.
pub open spec fn all_empty(g: Cells) -> bool {
    forall|r: int, c: int| in_bounds(g, r, c) ==> g[r][c] is None
}

/// Empty cells among the first `j` entries of one row.
pub open spec fn row_empties(s: Seq<Option<Color>>, j: int) -> int
    decreases j,
{
    if j <= 0 {
        0
    } else {
        row_empties(s, j - 1) + if s[j - 1] is None {
            1int
        } else {
            0int
        }
    }
}

/// Empty cells in the first `i` full rows.
pub open spec fn empties_upto(g: Cells, i: int) -> int
    decreases i,
{
    if i <= 0 {
        0
    } else {
        empties_upto(g, i - 1) + row_empties(g[i - 1], g[i - 1].len() as int)
    }
}

/// Empty cells board-wide.
pub open spec fn count_empty(g: Cells) -> int {
    empties_upto(g, g.len() as int)
}

/// The occupied coordinates of row `i` among columns `0..j`, left to right.
pub open spec fn row_moves(g: Cells, i: int, j: int) -> Seq<(usize, usize)>
    decreases j,
{
    if j <= 0 {
        Seq::empty()
    } else {
        row_moves(g, i, j - 1) + if g[i][j - 1] is Some {
            seq![(i as usize, (j - 1) as usize)]
        } else {
            Seq::empty()
        }
    }
}

/// The occupied coordinates of rows `0..i`, in row-major order.
pub open spec fn moves_upto(g: Cells, i: int) -> Seq<(usize, usize)>
    decreases i,
{
    if i <= 0 {
        Seq::empty()
    } else {
        moves_upto(g, i - 1) + row_moves(g, i - 1, cols(g))
    }
}

/// Every occupied coordinate of the board, in row-major order.
pub open spec fn all_moves(g: Cells) -> Seq<(usize, usize)> {
    moves_upto(g, rows(g))
}

/// Orthogonal adjacency of two coordinates.
pub open spec fn adj(a: (int, int), b: (int, int)) -> bool {
    ||| (a.0 == b.0 && (b.1 == a.1 + 1 || b.1 == a.1 - 1))
    ||| (a.1 == b.1 && (b.0 == a.0 + 1 || b.0 == a.0 - 1))
}

/// A nonempty walk through cells that all hold color `k`, each step orthogonal.
pub open spec fn path_ok(g: Cells, k: Color, p: Seq<(int, int)>) -> bool {
    &&& p.len() > 0
    &&& forall|i: int| 0 <= i < p.len() ==> has_color(g, #[trigger] p[i], k)
    &&& forall|i: int| 0 <= i < p.len() - 1 ==> adj(#[trigger] p[i], p[i + 1])
}

/// `t` is reachable from `s` through cells of color `k`. Kept opaque: the
/// proofs below expose exactly the facts that are needed of it.
#[verifier::opaque]
pub open spec fn reach(g: Cells, k: Color, s: (int, int), t: (int, int)) -> bool {
    exists|p: Seq<(int, int)>|
        path_ok(g, k, p) && p[0] == s && p[p.len() - 1] == t
}

/// The connected same-color region of the occupied cell `s`.
pub open spec fn cluster_set(g: Cells, s: (int, int)) -> Set<(int, int)> {
    Set::new(|t: (int, int)| reach(g, color_at(g, s.0, s.1), s, t))
}

/// How many coordinates of an `nrows` by `ncols` grid prefix a set contains:
/// row `i`, columns `0..j`.
pub open spec fn row_count(s: Set<(int, int)>, i: int, j: int) -> int
    decreases j,
{
    if j <= 0 {
        0
    } else {
        row_count(s, i, j - 1) + if s.contains((i, j - 1)) {
            1int
        } else {
            0int
        }
    }
}

/// How many coordinates of rows `0..i` (each `ncols` wide) a set contains.
pub open spec fn count_upto(s: Set<(int, int)>, i: int, ncols: int) -> int
    decreases i,
{
    if i <= 0 {
        0
    } else {
        count_upto(s, i - 1, ncols) + row_count(s, i - 1, ncols)
    }
}

/// How many coordinates of an `nrows` by `ncols` grid a set contains.
pub open spec fn grid_count(s: Set<(int, int)>, nrows: int, ncols: int) -> int {
    count_upto(s, nrows, ncols)
}

/// The number of cells in the connected same-color region of `s`.
pub open spec fn cluster_size(g: Cells, s: (int, int)) -> int {
    grid_count(cluster_set(g, s), rows(g), cols(g))
}

/// `a` comes strictly before `b` in row-major order.
pub open spec fn earlier(a: (int, int), b: (int, int)) -> bool {
    a.0 < b.0 || (a.0 == b.0 && a.1 < b.1)
}

/// `s` is the row-major-first cell of its connected same-color region. Every
/// region of an occupied board has exactly one such cell, so counting them
/// counts the regions.
pub open spec fn first_of_cluster(g: Cells, s: (int, int)) -> bool {
    occupied(g, s.0, s.1) && forall|a: (int, int)|
        earlier(a, s) ==> !reach(g, color_at(g, s.0, s.1), s, a)
}

/// The number of distinct same-color connected regions on the board.
pub open spec fn cluster_count_spec(g: Cells) -> int {
    grid_count(Set::new(|s: (int, int)| first_of_cluster(g, s)), rows(g), cols(g))
}

/// The board after flood-clearing the region of the occupied cell `(r, c)`:
/// every cell reachable from it through its color becomes empty.
pub open spec fn clear_spec(g: Cells, r: int, c: int) -> Cells {
    Seq::new(
        g.len(),
        |i: int|
            Seq::new(
                g[i].len(),
                |j: int|
                    if reach(g, color_at(g, r, c), (r, c), (i, j)) {
                        None
                    } else {
                        g[i][j]
                    },
            ),
    )
}

/// Column `c` of the board, top to bottom.
pub open spec fn column(g: Cells, c: int) -> Seq<Option<Color>> {
    Seq::new(g.len(), |i: int| g[i][c])
}

/// The occupied entries among the first `j` entries of a column, in order.
pub open spec fn somes_in(s: Seq<Option<Color>>, j: int) -> Seq<Option<Color>>
    decreases j,
{
    if j <= 0 {
        Seq::empty()
    } else {
        somes_in(s, j - 1) + if s[j - 1] is Some {
            seq![s[j - 1]]
        } else {
            Seq::empty()
        }
    }
}

/// A column after gravity: its occupied entries, in their original order,
/// pushed to the bottom, with the emptiness above them.
pub open spec fn packed(s: Seq<Option<Color>>) -> Seq<Option<Color>> {
    let kept = somes_in(s, s.len() as int);
    Seq::new(
        s.len(),
        |i: int|
            if i < s.len() - kept.len() {
                None
            } else {
                kept[i - (s.len() - kept.len())]
            },
    )
}

/// The board after gravity settles every column independently.
pub open spec fn gravity_spec(g: Cells) -> Cells {
    Seq::new(g.len(), |i: int| Seq::new(g[i].len(), |j: int| packed(column(g, j))[i]))
}

/// The board after one move at `(r, c)`: a no-op for the contents when the
/// target is empty or off the board, else flood clear followed by gravity.
pub open spec fn remove_spec(g: Cells, r: int, c: int) -> Cells {
    if !in_bounds(g, r, c) || g[r][c] is None {
        g
    } else {
        gravity_spec(clear_spec(g, r, c))
    }
}

/// The board after replaying a sequence of moves from `g`, in order.
pub open spec fn replay(g: Cells, ms: Seq<(usize, usize)>) -> Cells
    decreases ms.len(),
{
    if ms.len() == 0 {
        g
    } else {
        replay(remove_spec(g, ms[0].0 as int, ms[0].1 as int), ms.drop_first())
    }
}

/// The largest region size among row `i`, columns `0..j`.
pub open spec fn row_max_cluster(g: Cells, i: int, j: int) -> int
    decreases j,
{
    if j <= 0 {
        0
    } else {
        let rest = row_max_cluster(g, i, j - 1);
        let here = if occupied(g, i, j - 1) {
            cluster_size(g, (i, j - 1))
        } else {
            0
        };
        if here > rest {
            here
        } else {
            rest
        }
    }
}

/// The largest region size among rows `0..i`.
pub open spec fn max_cluster_upto(g: Cells, i: int) -> int
    decreases i,
{
    if i <= 0 {
        0
    } else {
        let rest = max_cluster_upto(g, i - 1);
        let here = row_max_cluster(g, i - 1, cols(g));
        if here > rest {
            here
        } else {
            rest
        }
    }
}

/// The size of the largest same-color connected region on the board.
pub open spec fn max_cluster_size(g: Cells) -> int {
    max_cluster_upto(g, rows(g))
}

/// Row maxima grow with the prefix.
pub proof fn lemma_row_max_mono(g: Cells, i: int, j1: int, j2: int)
    requires
        j1 <= j2,
    ensures
        row_max_cluster(g, i, j1) <= row_max_cluster(g, i, j2),
    decreases j2 - j1,
{
    if j1 < j2 {
        lemma_row_max_mono(g, i, j1, j2 - 1);
    }
}

/// Board maxima grow with the rows covered.
pub proof fn lemma_max_upto_mono(g: Cells, i1: int, i2: int)
    requires
        i1 <= i2,
    ensures
        max_cluster_upto(g, i1) <= max_cluster_upto(g, i2),
    decreases i2 - i1,
{
    if i1 < i2 {
        lemma_max_upto_mono(g, i1, i2 - 1);
    }
}

/// No region is larger than the board's maximum region size.
pub proof fn lemma_max_cluster_bound(g: Cells, s: (int, int))
    requires
        occupied(g, s.0, s.1),
    ensures
        cluster_size(g, s) <= max_cluster_size(g),
{
    assert(cluster_size(g, s) <= row_max_cluster(g, s.0, s.1 + 1));
    lemma_row_max_mono(g, s.0, s.1 + 1, cols(g));
    assert(row_max_cluster(g, s.0, cols(g)) <= max_cluster_upto(g, s.0 + 1));
    lemma_max_upto_mono(g, s.0 + 1, rows(g));
}

/// A positive row maximum is attained by some occupied cell of the prefix.
pub proof fn lemma_row_max_witness(g: Cells, i: int, j: int)
    ensures
        row_max_cluster(g, i, j) == 0 || exists|s: (int, int)|
            occupied(g, s.0, s.1) && cluster_size(g, s) == row_max_cluster(g, i, j),
        row_max_cluster(g, i, j) >= 0,
    decreases j,
{
    if j > 0 {
        lemma_row_max_witness(g, i, j - 1);
        if occupied(g, i, j - 1) && cluster_size(g, (i, j - 1)) > row_max_cluster(g, i, j - 1) {
            assert(occupied(g, (i, j - 1).0, (i, j - 1).1) && cluster_size(g, (i, j - 1))
                == row_max_cluster(g, i, j));
        }
    }
}

/// A positive board maximum is attained by some occupied cell.
pub proof fn lemma_max_cluster_witness(g: Cells, i: int)
    ensures
        max_cluster_upto(g, i) == 0 || exists|s: (int, int)|
            occupied(g, s.0, s.1) && cluster_size(g, s) == max_cluster_upto(g, i),
        max_cluster_upto(g, i) >= 0,
    decreases i,
{
    if i > 0 {
        lemma_max_cluster_witness(g, i - 1);
        lemma_row_max_witness(g, i - 1, cols(g));
    }
}

/// A cleared board never changes again, whatever is replayed on it.
pub proof fn lemma_replay_empty(g: Cells, ms: Seq<(usize, usize)>)
    requires
        all_empty(g),
    ensures
        replay(g, ms) == g,
    decreases ms.len(),
{
    if ms.len() > 0 {
        assert(remove_spec(g, ms[0].0 as int, ms[0].1 as int) == g);
        lemma_replay_empty(g, ms.drop_first());
    }
}

/// A removal never changes the board's shape.
pub proof fn lemma_remove_spec_shape(g: Cells, r: int, c: int)
    requires
        rect(g),
    ensures
        rect(remove_spec(g, r, c)),
        rows(remove_spec(g, r, c)) == rows(g),
        cols(remove_spec(g, r, c)) == cols(g),
{
    let g2 = remove_spec(g, r, c);
    if in_bounds(g, r, c) && g[r][c] is Some {
        let gc = clear_spec(g, r, c);
        assert(gc.len() == g.len());
        assert(forall|i: int| 0 <= i < g.len() ==> (#[trigger] gc[i]).len() == g[i].len());
        assert(g2.len() == g.len());
        assert forall|i: int| 0 <= i < g2.len() implies (#[trigger] g2[i]).len() == cols(g) by {
            assert(g2[i].len() == gc[i].len());
            assert(g[i].len() == cols(g));
        }
        if g.len() > 0 {
            assert(g2[0].len() == cols(g));
        }
    }
}

/// Replaying one more move is one more removal at the end.
pub proof fn lemma_replay_push(g: Cells, ms: Seq<(usize, usize)>, m: (usize, usize))
    ensures
        replay(g, ms.push(m)) == remove_spec(replay(g, ms), m.0 as int, m.1 as int),
    decreases ms.len(),
{
    if ms.len() == 0 {
        assert(ms.push(m)[0] == m);
        assert(ms.push(m).drop_first() =~= Seq::<(usize, usize)>::empty());
        assert(replay(g, ms) == g);
        assert(replay(remove_spec(g, m.0 as int, m.1 as int), Seq::<(usize, usize)>::empty())
            == remove_spec(g, m.0 as int, m.1 as int));
    } else {
        assert(ms.push(m)[0] == ms[0]);
        assert(ms.push(m).drop_first() =~= ms.drop_first().push(m));
        lemma_replay_push(remove_spec(g, ms[0].0 as int, ms[0].1 as int), ms.drop_first(), m);
        assert(replay(g, ms) == replay(
            remove_spec(g, ms[0].0 as int, ms[0].1 as int),
            ms.drop_first(),
        ));
        assert(replay(g, ms.push(m)) == replay(
            remove_spec(g, ms[0].0 as int, ms[0].1 as int),
            ms.drop_first().push(m),
        ));
    }
}

/// A cell of color `k` reaches itself.
pub proof fn lemma_reach_refl(g: Cells, k: Color, s: (int, int))
    requires
        has_color(g, s, k),
    ensures
        reach(g, k, s, s),
{
    reveal(reach);
    let p = seq![s];
    assert(path_ok(g, k, p));
    assert(path_ok(g, k, p) && p[0] == s && p[p.len() - 1] == s);
}

/// Reachability extends across one adjacent same-colored cell.
pub proof fn lemma_reach_step(g: Cells, k: Color, s: (int, int), x: (int, int), y: (int, int))
    requires
        reach(g, k, s, x),
        adj(x, y),
        has_color(g, y, k),
    ensures
        reach(g, k, s, y),
{
    reveal(reach);
    let p = choose|p: Seq<(int, int)>| path_ok(g, k, p) && p[0] == s && p[p.len() - 1] == x;
    let q = p.push(y);
    assert(forall|i: int| 0 <= i < p.len() ==> q[i] == p[i]);
    assert(q[q.len() - 1] == y);
    assert(path_ok(g, k, q));
    assert(path_ok(g, k, q) && q[0] == s && q[q.len() - 1] == y);
}

/// Both ends of a reachability fact hold the color in question.
pub proof fn lemma_reach_color(g: Cells, k: Color, s: (int, int), t: (int, int))
    requires
        reach(g, k, s, t),
    ensures
        has_color(g, s, k),
        has_color(g, t, k),
{
    reveal(reach);
    let p = choose|p: Seq<(int, int)>| path_ok(g, k, p) && p[0] == s && p[p.len() - 1] == t;
    assert(has_color(g, p[0], k));
    assert(has_color(g, p[p.len() - 1], k));
}

/// A set that contains the head of a walk and is closed under stepping to
/// adjacent same-colored cells contains the walk's end.
pub proof fn lemma_closed_covers(g: Cells, k: Color, cset: Set<(int, int)>, p: Seq<(int, int)>)
    requires
        path_ok(g, k, p),
        cset.contains(p[0]),
        forall|x: (int, int), y: (int, int)|
            cset.contains(x) && adj(x, y) && has_color(g, y, k) ==> cset.contains(y),
    ensures
        cset.contains(p[p.len() - 1]),
    decreases p.len(),
{
    if p.len() > 1 {
        assert(adj(p[0], p[1]));
        assert(has_color(g, p[1], k));
        assert(cset.contains(p[1]));
        let q = p.drop_first();
        assert(forall|i: int| 0 <= i < q.len() ==> q[i] == p[i + 1]);
        assert(path_ok(g, k, q));
        lemma_closed_covers(g, k, cset, q);
        assert(q[q.len() - 1] == p[p.len() - 1]);
    }
}

/// A set that contains `s` and is closed under stepping to adjacent
/// same-colored cells contains everything reachable from `s`.
pub proof fn lemma_closed_contains_reach(g: Cells, k: Color, s: (int, int), cset: Set<(int, int)>)
    requires
        cset.contains(s),
        forall|x: (int, int), y: (int, int)|
            cset.contains(x) && adj(x, y) && has_color(g, y, k) ==> cset.contains(y),
    ensures
        forall|t: (int, int)| reach(g, k, s, t) ==> cset.contains(t),
{
    reveal(reach);
    assert forall|t: (int, int)| reach(g, k, s, t) implies cset.contains(t) by {
        let p = choose|p: Seq<(int, int)>|
            path_ok(g, k, p) && p[0] == s && p[p.len() - 1] == t;
        lemma_closed_covers(g, k, cset, p);
    }
}

/// From a cell with no same-colored orthogonal neighbor, nothing but the cell
/// itself is reachable.
pub proof fn lemma_isolated_reach(g: Cells, k: Color, s: (int, int))
    requires
        forall|y: (int, int)| adj(s, y) ==> !has_color(g, y, k),
    ensures
        forall|t: (int, int)| reach(g, k, s, t) ==> t == s,
{
    reveal(reach);
    assert forall|t: (int, int)| reach(g, k, s, t) implies t == s by {
        let p = choose|p: Seq<(int, int)>| path_ok(g, k, p) && p[0] == s && p[p.len() - 1] == t;
        if p.len() > 1 {
            assert(adj(p[0], p[1]));
            assert(has_color(g, p[1], k));
        }
    }
}

/// Reachability is symmetric: reverse the walk.
pub proof fn lemma_reach_sym(g: Cells, k: Color, s: (int, int), t: (int, int))
    requires
        reach(g, k, s, t),
    ensures
        reach(g, k, t, s),
{
    reveal(reach);
    let p = choose|p: Seq<(int, int)>| path_ok(g, k, p) && p[0] == s && p[p.len() - 1] == t;
    let q = Seq::new(p.len(), |i: int| p[p.len() - 1 - i]);
    assert(forall|i: int| 0 <= i < q.len() ==> #[trigger] q[i] == p[p.len() - 1 - i]);
    assert forall|i: int| 0 <= i < q.len() - 1 implies adj(#[trigger] q[i], q[i + 1]) by {
        assert(adj(p[p.len() - 2 - i], p[p.len() - 1 - i]));
    }
    assert(path_ok(g, k, q));
    assert(path_ok(g, k, q) && q[0] == t && q[q.len() - 1] == s);
}

/// Reachability is transitive: join the walks.
pub proof fn lemma_reach_trans(g: Cells, k: Color, s: (int, int), m: (int, int), t: (int, int))
    requires
        reach(g, k, s, m),
        reach(g, k, m, t),
    ensures
        reach(g, k, s, t),
{
    reveal(reach);
    let p1 = choose|p: Seq<(int, int)>| path_ok(g, k, p) && p[0] == s && p[p.len() - 1] == m;
    let p2 = choose|p: Seq<(int, int)>| path_ok(g, k, p) && p[0] == m && p[p.len() - 1] == t;
    let q = p1 + p2.drop_first();
    assert(forall|i: int| 0 <= i < p1.len() ==> #[trigger] q[i] == p1[i]);
    assert(forall|i: int|
        p1.len() <= i < q.len() ==> #[trigger] q[i] == p2[i - p1.len() + 1]);
    assert forall|i: int| 0 <= i < q.len() implies has_color(g, #[trigger] q[i], k) by {
        if i < p1.len() {
            assert(has_color(g, p1[i], k));
        } else {
            assert(has_color(g, p2[i - p1.len() + 1], k));
        }
    }
    assert forall|i: int| 0 <= i < q.len() - 1 implies adj(#[trigger] q[i], q[i + 1]) by {
        if i + 1 < p1.len() {
            assert(adj(p1[i], p1[i + 1]));
        } else if i + 1 == p1.len() {
            assert(q[i] == p1[p1.len() - 1]);
            assert(q[i + 1] == p2[1]);
            assert(adj(p2[0], p2[1]));
        } else {
            assert(adj(p2[i - p1.len()], p2[i - p1.len() + 1]));
        }
    }
    assert(path_ok(g, k, q));
    assert(q[0] == s && q[q.len() - 1] == t);
    assert(path_ok(g, k, q) && q[0] == s && q[q.len() - 1] == t);
}

/// Two cells of one region have the same region: same set, same size.
pub proof fn lemma_same_cluster(g: Cells, s: (int, int), t: (int, int))
    requires
        reach(g, color_at(g, s.0, s.1), s, t),
    ensures
        cluster_set(g, t) == cluster_set(g, s),
        cluster_size(g, t) == cluster_size(g, s),
{
    let k = color_at(g, s.0, s.1);
    lemma_reach_color(g, k, s, t);
    assert(color_at(g, t.0, t.1) == k);
    assert forall|u: (int, int)| #[trigger] cluster_set(g, s).contains(u) implies cluster_set(
        g,
        t,
    ).contains(u) by {
        lemma_reach_sym(g, k, s, t);
        lemma_reach_trans(g, k, t, s, u);
    }
    assert forall|u: (int, int)| #[trigger] cluster_set(g, t).contains(u) implies cluster_set(
        g,
        s,
    ).contains(u) by {
        lemma_reach_trans(g, k, s, t, u);
    }
    assert(cluster_set(g, t) =~= cluster_set(g, s));
}

/// Adding one grid coordinate to a set raises its grid-count by one.
pub proof fn lemma_row_count_insert(s: Set<(int, int)>, t: (int, int), i: int, j: int)
    requires
        !s.contains(t),
    ensures
        row_count(s.insert(t), i, j) == row_count(s, i, j) + if t.0 == i && 0 <= t.1 < j {
            1int
        } else {
            0int
        },
    decreases j,
{
    if j > 0 {
        lemma_row_count_insert(s, t, i, j - 1);
    }
}

/// Adding one in-range coordinate to a set raises its grid-count by one.
pub proof fn lemma_grid_count_insert(
    s: Set<(int, int)>,
    t: (int, int),
    nrows: int,
    ncols: int,
    i: int,
)
    requires
        !s.contains(t),
        0 <= t.0 < nrows,
        0 <= t.1 < ncols,
    ensures
        count_upto(s.insert(t), i, ncols) == count_upto(s, i, ncols) + if t.0 < i {
            1int
        } else {
            0int
        },
    decreases i,
{
    if i > 0 {
        lemma_grid_count_insert(s, t, nrows, ncols, i - 1);
        lemma_row_count_insert(s, t, i - 1, ncols);
    }
}

/// Grid-counts lie between 0 and the number of grid cells.
pub proof fn lemma_row_count_range(s: Set<(int, int)>, i: int, j: int)
    ensures
        0 <= row_count(s, i, j),
        row_count(s, i, j) <= if j <= 0 {
            0int
        } else {
            j
        },
    decreases j,
{
    if j > 0 {
        lemma_row_count_range(s, i, j - 1);
    }
}

/// Grid-counts lie between 0 and the number of grid cells.
pub proof fn lemma_grid_count_range(s: Set<(int, int)>, i: int, ncols: int)
    requires
        0 <= ncols,
    ensures
        0 <= count_upto(s, i, ncols),
        count_upto(s, i, ncols) <= if i <= 0 {
            0int
        } else {
            i * ncols
        },
    decreases i,
{
    if i > 0 {
        lemma_grid_count_range(s, i - 1, ncols);
        lemma_row_count_range(s, i - 1, ncols);
        assert((i - 1) * ncols + ncols == i * ncols) by (nonlinear_arith);
    }
}

/// The empty set counts no grid cell.
pub proof fn lemma_row_count_empty(s: Set<(int, int)>, i: int, j: int)
    requires
        forall|t: (int, int)| !s.contains(t),
    ensures
        row_count(s, i, j) == 0,
    decreases j,
{
    if j > 0 {
        lemma_row_count_empty(s, i, j - 1);
    }
}

/// The empty set counts no grid cell.
pub proof fn lemma_grid_count_empty(s: Set<(int, int)>, i: int, ncols: int)
    requires
        forall|t: (int, int)| !s.contains(t),
    ensures
        count_upto(s, i, ncols) == 0,
    decreases i,
{
    if i > 0 {
        lemma_grid_count_empty(s, i - 1, ncols);
        lemma_row_count_empty(s, i - 1, ncols);
    }
}

/// A set holding an in-range coordinate has a positive grid-count.
pub proof fn lemma_grid_count_member(s: Set<(int, int)>, t: (int, int), i: int, ncols: int)
    requires
        s.contains(t),
        0 <= t.0 < i,
        0 <= t.1 < ncols,
    ensures
        count_upto(s, i, ncols) >= 1,
    decreases i,
{
    if t.0 == i - 1 {
        lemma_grid_count_range(s, i - 1, ncols);
        lemma_row_count_member(s, t, i - 1, ncols);
    } else {
        lemma_grid_count_member(s, t, i - 1, ncols);
        lemma_row_count_range(s, i - 1, ncols);
    }
}

/// A row holding an in-range member of the set counts at least one.
pub proof fn lemma_row_count_member(s: Set<(int, int)>, t: (int, int), i: int, j: int)
    requires
        s.contains(t),
        t.0 == i,
        0 <= t.1 < j,
    ensures
        row_count(s, i, j) >= 1,
    decreases j,
{
    lemma_row_count_range(s, i, j - 1);
    if t.1 < j - 1 {
        lemma_row_count_member(s, t, i, j - 1);
        assert(row_count(s, i, j) >= row_count(s, i, j - 1));
    }
}

/// An occupied cell's region counts at least the cell itself.
pub proof fn lemma_cluster_size_pos(g: Cells, s: (int, int))
    requires
        occupied(g, s.0, s.1),
    ensures
        cluster_size(g, s) >= 1,
{
    lemma_reach_refl(g, color_at(g, s.0, s.1), s);
    assert(cluster_set(g, s).contains(s));
    lemma_grid_count_member(cluster_set(g, s), s, rows(g), cols(g));
}

/// Prefix empty-counts of a row lie between 0 and the prefix length.
pub proof fn lemma_row_empties_range(s: Seq<Option<Color>>, j: int)
    ensures
        0 <= row_empties(s, j),
        row_empties(s, j) <= if j <= 0 {
            0int
        } else {
            j
        },
    decreases j,
{
    if j > 0 {
        lemma_row_empties_range(s, j - 1);
    }
}

/// Empty-counts over row prefixes lie between 0 and `i * cols`.
pub proof fn lemma_empties_upto_range(g: Cells, i: int)
    requires
        rect(g),
        i <= g.len(),
    ensures
        0 <= empties_upto(g, i),
        empties_upto(g, i) <= if i <= 0 {
            0int
        } else {
            i * cols(g)
        },
    decreases i,
{
    if i > 0 {
        lemma_empties_upto_range(g, i - 1);
        lemma_row_empties_range(g[i - 1], g[i - 1].len() as int);
        assert((i - 1) * cols(g) + cols(g) == i * cols(g)) by (nonlinear_arith);
    }
}

/// Emptying one occupied entry of a row raises its prefix empty-count by one
/// exactly where the prefix covers that entry.
pub proof fn lemma_row_empties_update(s: Seq<Option<Color>>, c: int, j: int)
    requires
        0 <= c < s.len(),
        s[c] is Some,
        j <= s.len(),
    ensures
        row_empties(s.update(c, None), j) == row_empties(s, j) + if c < j {
            1int
        } else {
            0int
        },
    decreases j,
{
    if j > 0 {
        lemma_row_empties_update(s, c, j - 1);
    }
}

/// Emptying one occupied cell raises the board's empty-count by one exactly
/// where the covered rows include that cell's row.
pub proof fn lemma_empties_upto_update(g: Cells, r: int, c: int, i: int)
    requires
        0 <= r < g.len(),
        0 <= c < g[r].len(),
        g[r][c] is Some,
        i <= g.len(),
    ensures
        empties_upto(g.update(r, g[r].update(c, None)), i) == empties_upto(g, i) + if r < i {
            1int
        } else {
            0int
        },
    decreases i,
{
    let g2 = g.update(r, g[r].update(c, None));
    if i > 0 {
        lemma_empties_upto_update(g, r, c, i - 1);
        if i - 1 == r {
            lemma_row_empties_update(g[r], c, g[r].len() as int);
            assert(g2[i - 1] == g[r].update(c, None));
        } else {
            assert(g2[i - 1] == g[i - 1]);
        }
    }
}

/// Every occupied cell leads, by row-major descent through its region, to
/// the cell that heads that region.
pub proof fn lemma_first_exists(g: Cells, s: (int, int))
    requires
        occupied(g, s.0, s.1),
    ensures
        exists|t: (int, int)|
            #[trigger] first_of_cluster(g, t) && reach(g, color_at(g, t.0, t.1), t, s),
    decreases s.0, s.1,
{
    let k = color_at(g, s.0, s.1);
    if first_of_cluster(g, s) {
        lemma_reach_refl(g, k, s);
        assert(first_of_cluster(g, s) && reach(g, color_at(g, s.0, s.1), s, s));
    } else {
        let a = choose|a: (int, int)| earlier(a, s) && reach(g, k, s, a);
        lemma_reach_color(g, k, s, a);
        lemma_first_exists(g, a);
        let t = choose|t: (int, int)|
            first_of_cluster(g, t) && reach(g, color_at(g, t.0, t.1), t, a);
        lemma_reach_color(g, color_at(g, t.0, t.1), t, a);
        lemma_reach_sym(g, k, s, a);
        lemma_reach_trans(g, k, t, a, s);
        assert(first_of_cluster(g, t) && reach(g, color_at(g, t.0, t.1), t, s));
    }
}

/// Two region heads whose regions share a cell are one head.
proof fn lemma_two_firsts(g: Cells, f1: (int, int), f2: (int, int), u: (int, int))
    requires
        first_of_cluster(g, f1),
        first_of_cluster(g, f2),
        cluster_set(g, f1).contains(u),
        cluster_set(g, f2).contains(u),
    ensures
        f1 == f2,
{
    let k1 = color_at(g, f1.0, f1.1);
    let k2 = color_at(g, f2.0, f2.1);
    lemma_reach_color(g, k1, f1, u);
    lemma_reach_color(g, k2, f2, u);
    assert(k1 == k2);
    lemma_reach_sym(g, k2, f2, u);
    lemma_reach_trans(g, k1, f1, u, f2);
    lemma_reach_sym(g, k1, f1, f2);
    if f1 != f2 {
        if earlier(f1, f2) {
            assert(!reach(g, k2, f2, f1));
        } else {
            assert(earlier(f2, f1));
            assert(!reach(g, k1, f1, f2));
        }
        assert(false);
    }
}

/// Disjoint sets count a grid row separately.
proof fn lemma_row_count_union(a: Set<(int, int)>, b: Set<(int, int)>, i: int, j: int)
    requires
        forall|t: (int, int)| !(a.contains(t) && b.contains(t)),
    ensures
        row_count(a.union(b), i, j) == row_count(a, i, j) + row_count(b, i, j),
    decreases j,
{
    if j > 0 {
        lemma_row_count_union(a, b, i, j - 1);
    }
}

/// Disjoint sets count a grid separately.
proof fn lemma_grid_count_union(a: Set<(int, int)>, b: Set<(int, int)>, i: int, ncols: int)
    requires
        forall|t: (int, int)| !(a.contains(t) && b.contains(t)),
    ensures
        count_upto(a.union(b), i, ncols) == count_upto(a, i, ncols) + count_upto(b, i, ncols),
    decreases i,
{
    if i > 0 {
        lemma_grid_count_union(a, b, i - 1, ncols);
        lemma_row_count_union(a, b, i - 1, ncols);
    }
}

/// The region sizes of the heads in row `i`, columns `0..j`.
pub open spec fn row_heads_sum(g: Cells, i: int, j: int) -> int
    decreases j,
{
    if j <= 0 {
        0
    } else {
        row_heads_sum(g, i, j - 1) + if first_of_cluster(g, (i, j - 1)) {
            cluster_size(g, (i, j - 1))
        } else {
            0
        }
    }
}

/// The region sizes of the heads in rows `0..i`.
pub open spec fn heads_sum_upto(g: Cells, i: int) -> int
    decreases i,
{
    if i <= 0 {
        0
    } else {
        heads_sum_upto(g, i - 1) + row_heads_sum(g, i - 1, cols(g))
    }
}

/// The sum of every region's size, each counted once at its head.
pub open spec fn cluster_sizes_sum(g: Cells) -> int {
    heads_sum_upto(g, rows(g))
}

/// The cells of the regions whose heads come before `p` in row-major order.
spec fn covered(g: Cells, p: (int, int)) -> Set<(int, int)> {
    Set::new(
        |u: (int, int)|
            exists|f: (int, int)|
                #[trigger] first_of_cluster(g, f) && earlier(f, p) && cluster_set(g, f).contains(
                    u,
                ),
    )
}

/// The heads before `(i, j)` account, cell by cell, for the head sums.
proof fn lemma_heads_row(g: Cells, i: int, j: int)
    requires
        rect(g),
        0 <= i < rows(g),
        0 <= j <= cols(g),
    ensures
        heads_sum_upto(g, i) + row_heads_sum(g, i, j) == grid_count(
            covered(g, (i, j)),
            rows(g),
            cols(g),
        ),
    decreases i, j + 1,
{
    if j == 0 {
        lemma_heads_upto(g, i);
    } else {
        lemma_heads_row(g, i, j - 1);
        let p = (i, j - 1);
        let prev = covered(g, (i, j - 1));
        let cur = covered(g, (i, j));
        if first_of_cluster(g, p) {
            assert forall|u: (int, int)| !(prev.contains(u) && cluster_set(g, p).contains(u)) by {
                if prev.contains(u) && cluster_set(g, p).contains(u) {
                    let f = choose|f: (int, int)|
                        #[trigger] first_of_cluster(g, f) && earlier(f, (i, j - 1))
                            && cluster_set(g, f).contains(u);
                    lemma_two_firsts(g, f, p, u);
                }
            }
            assert forall|u: (int, int)| #[trigger] cur.contains(u) implies prev.union(
                cluster_set(g, p),
            ).contains(u) by {
                let f = choose|f: (int, int)|
                    #[trigger] first_of_cluster(g, f) && earlier(f, (i, j)) && cluster_set(
                        g,
                        f,
                    ).contains(u);
                if f == p {
                    assert(cluster_set(g, p).contains(u));
                } else {
                    assert(earlier(f, (i, j - 1)));
                    assert(prev.contains(u));
                }
            }
            assert forall|u: (int, int)| #[trigger] prev.union(cluster_set(g, p)).contains(u)
                implies cur.contains(u) by {
                if prev.contains(u) {
                    let f = choose|f: (int, int)|
                        #[trigger] first_of_cluster(g, f) && earlier(f, (i, j - 1))
                            && cluster_set(g, f).contains(u);
                    assert(first_of_cluster(g, f) && earlier(f, (i, j)) && cluster_set(
                        g,
                        f,
                    ).contains(u));
                } else {
                    assert(first_of_cluster(g, p) && earlier(p, (i, j)) && cluster_set(
                        g,
                        p,
                    ).contains(u));
                }
            }
            assert(cur =~= prev.union(cluster_set(g, p)));
            lemma_grid_count_union(prev, cluster_set(g, p), rows(g), cols(g));
        } else {
            assert forall|u: (int, int)| #[trigger] cur.contains(u) implies prev.contains(
                u,
            ) by {
                let f = choose|f: (int, int)|
                    #[trigger] first_of_cluster(g, f) && earlier(f, (i, j)) && cluster_set(
                        g,
                        f,
                    ).contains(u);
                assert(f != p);
                assert(earlier(f, (i, j - 1)));
                assert(first_of_cluster(g, f) && earlier(f, (i, j - 1)) && cluster_set(
                    g,
                    f,
                ).contains(u));
            }
            assert forall|u: (int, int)| #[trigger] prev.contains(u) implies cur.contains(
                u,
            ) by {
                let f = choose|f: (int, int)|
                    #[trigger] first_of_cluster(g, f) && earlier(f, (i, j - 1)) && cluster_set(
                        g,
                        f,
                    ).contains(u);
                assert(first_of_cluster(g, f) && earlier(f, (i, j)) && cluster_set(
                    g,
                    f,
                ).contains(u));
            }
            assert(cur =~= prev);
        }
    }
}

/// The heads before row `i` account for the head sums of the rows above.
proof fn lemma_heads_upto(g: Cells, i: int)
    requires
        rect(g),
        0 <= i <= rows(g),
    ensures
        heads_sum_upto(g, i) == grid_count(covered(g, (i, 0int)), rows(g), cols(g)),
    decreases i, 0int,
{
    if i == 0 {
        assert forall|u: (int, int)| !(#[trigger] covered(g, (0int, 0int)).contains(u)) by {
            if covered(g, (0int, 0int)).contains(u) {
                let f = choose|f: (int, int)|
                    #[trigger] first_of_cluster(g, f) && earlier(f, (0int, 0int))
                        && cluster_set(g, f).contains(u);
                assert(in_bounds(g, f.0, f.1));
            }
        }
        lemma_grid_count_empty(covered(g, (0int, 0int)), rows(g), cols(g));
    } else {
        lemma_heads_row(g, i - 1, cols(g));
        let a = covered(g, (i - 1, cols(g)));
        let b = covered(g, (i, 0int));
        assert forall|u: (int, int)| #[trigger] a.contains(u) implies b.contains(u) by {
            let f = choose|f: (int, int)|
                #[trigger] first_of_cluster(g, f) && earlier(f, (i - 1, cols(g)))
                    && cluster_set(g, f).contains(u);
            assert(first_of_cluster(g, f) && earlier(f, (i, 0int)) && cluster_set(
                g,
                f,
            ).contains(u));
        }
        assert forall|u: (int, int)| #[trigger] b.contains(u) implies a.contains(u) by {
            let f = choose|f: (int, int)|
                #[trigger] first_of_cluster(g, f) && earlier(f, (i, 0int)) && cluster_set(
                    g,
                    f,
                ).contains(u);
            assert(in_bounds(g, f.0, f.1));
            assert(first_of_cluster(g, f) && earlier(f, (i - 1, cols(g))) && cluster_set(
                g,
                f,
            ).contains(u));
        }
        assert(a =~= b);
    }
}

/// The occupied coordinates, as a set.
spec fn occ_set(g: Cells) -> Set<(int, int)> {
    Set::new(|t: (int, int)| occupied(g, t.0, t.1))
}

/// Occupied and empty cells of a row prefix account for all of it.
proof fn lemma_row_occ(g: Cells, i: int, j: int)
    requires
        rect(g),
        0 <= i < rows(g),
        0 <= j <= cols(g),
    ensures
        row_count(occ_set(g), i, j) + row_empties(g[i], j) == j,
    decreases j,
{
    if j > 0 {
        lemma_row_occ(g, i, j - 1);
        assert(occ_set(g).contains((i, j - 1)) <==> !(g[i][j - 1] is None));
    }
}

/// Occupied and empty cells of the first rows account for all of them.
proof fn lemma_upto_occ(g: Cells, i: int)
    requires
        rect(g),
        0 <= i <= rows(g),
    ensures
        count_upto(occ_set(g), i, cols(g)) + empties_upto(g, i) == i * cols(g),
    decreases i,
{
    if i > 0 {
        lemma_upto_occ(g, i - 1);
        lemma_row_occ(g, i - 1, cols(g));
        assert(g[i - 1].len() == cols(g));
        assert(count_upto(occ_set(g), i, cols(g)) == count_upto(occ_set(g), i - 1, cols(g))
            + row_count(occ_set(g), i - 1, cols(g)));
        assert(empties_upto(g, i) == empties_upto(g, i - 1) + row_empties(g[i - 1], cols(g)));
        assert((i - 1) * cols(g) + cols(g) == i * cols(g)) by (nonlinear_arith);
    } else {
        assert(i * cols(g) == 0) by (nonlinear_arith)
            requires
                i == 0,
        ;
    }
}

/// Counting each region once, at its row-major-first cell, and summing the
/// region sizes reconstructs the number of colored cells: the regions
/// partition the colored part of the board.
pub proof fn lemma_cluster_partition(g: Cells)
    requires
        rect(g),
    ensures
        cluster_sizes_sum(g) + count_empty(g) == rows(g) * cols(g),
{
    lemma_heads_upto(g, rows(g));
    let full = covered(g, (rows(g), 0int));
    assert forall|u: (int, int)| #[trigger] full.contains(u) implies occ_set(g).contains(u) by {
        let f = choose|f: (int, int)|
            #[trigger] first_of_cluster(g, f) && earlier(f, (rows(g), 0int)) && cluster_set(
                g,
                f,
            ).contains(u);
        lemma_reach_color(g, color_at(g, f.0, f.1), f, u);
    }
    assert forall|u: (int, int)| #[trigger] occ_set(g).contains(u) implies full.contains(u) by {
        lemma_first_exists(g, u);
        let t = choose|t: (int, int)|
            #[trigger] first_of_cluster(g, t) && reach(g, color_at(g, t.0, t.1), t, u);
        assert(in_bounds(g, t.0, t.1));
        assert(cluster_set(g, t).contains(u));
        assert(first_of_cluster(g, t) && earlier(t, (rows(g), 0int)) && cluster_set(
            g,
            t,
        ).contains(u));
    }
    assert(full =~= occ_set(g));
    lemma_upto_occ(g, rows(g));
}

/// The board has no region exactly when it is cleared.
pub proof fn lemma_cluster_count_zero(g: Cells)
    ensures
        (cluster_count_spec(g) == 0) <==> all_empty(g),
{
    let firsts = Set::new(|s: (int, int)| first_of_cluster(g, s));
    if all_empty(g) {
        assert forall|s: (int, int)| !firsts.contains(s) by {
            if occupied(g, s.0, s.1) {
                assert(g[s.0][s.1] is None);
            }
        }
        lemma_grid_count_empty(firsts, rows(g), cols(g));
    } else {
        let (r, c) = choose|r: int, c: int| in_bounds(g, r, c) && g[r][c] is Some;
        lemma_first_exists(g, (r, c));
        let t = choose|t: (int, int)| first_of_cluster(g, t);
        assert(firsts.contains(t));
        lemma_grid_count_member(firsts, t, rows(g), cols(g));
    }
}

/// The empty cells of the first `j` columns, each over the first `i` rows.
pub open spec fn cols_sum(g: Cells, j: int, i: int) -> int
    decreases j,
{
    if j <= 0 {
        0
    } else {
        cols_sum(g, j - 1, i) + row_empties(column(g, j - 1), i)
    }
}

/// Counting one more row adds that row's empties to every column total.
proof fn lemma_cols_sum_step(g: Cells, j: int, i: int)
    requires
        1 <= i <= g.len(),
        j <= g[i - 1].len(),
    ensures
        cols_sum(g, j, i) == cols_sum(g, j, i - 1) + row_empties(g[i - 1], j),
    decreases j,
{
    if j > 0 {
        lemma_cols_sum_step(g, j - 1, i);
        assert(column(g, j - 1)[i - 1] == g[i - 1][j - 1]);
    }
}

/// Counting empties by rows and by columns agree.
proof fn lemma_row_col_exchange(g: Cells, i: int)
    requires
        rect(g),
        0 <= i <= g.len(),
    ensures
        empties_upto(g, i) == cols_sum(g, cols(g), i),
    decreases i,
{
    if i == 0 {
        lemma_cols_sum_zero(g, cols(g), 0);
    } else {
        lemma_row_col_exchange(g, i - 1);
        lemma_cols_sum_step(g, cols(g), i);
        assert(g[i - 1].len() == cols(g));
    }
}

/// No rows counted: no empties counted.
proof fn lemma_cols_sum_zero(g: Cells, j: int, i: int)
    requires
        i <= 0,
    ensures
        cols_sum(g, j, i) == 0,
    decreases j,
{
    if j > 0 {
        lemma_cols_sum_zero(g, j - 1, i);
    }
}

/// Equal column counts give equal sums.
proof fn lemma_cols_sum_congruent(g1: Cells, g2: Cells, j: int, i: int)
    requires
        forall|c: int|
            0 <= c < j ==> row_empties(column(g1, c), i) == row_empties(#[trigger] column(g2, c), i),
    ensures
        cols_sum(g1, j, i) == cols_sum(g2, j, i),
    decreases j,
{
    if j > 0 {
        lemma_cols_sum_congruent(g1, g2, j - 1, i);
    }
}

/// Every entry a column's gravity keeps is occupied.
proof fn lemma_somes_in_some(s: Seq<Option<Color>>, j: int)
    ensures
        forall|x: int| 0 <= x < somes_in(s, j).len() ==> somes_in(s, j)[x] is Some,
    decreases j,
{
    if j > 0 {
        lemma_somes_in_some(s, j - 1);
    }
}

/// Empty and occupied entries of a column prefix account for all of it.
proof fn lemma_nones_somes(s: Seq<Option<Color>>, j: int)
    ensures
        row_empties(s, j) + somes_in(s, j).len() == if j <= 0 {
            0int
        } else {
            j
        },
    decreases j,
{
    if j > 0 {
        lemma_nones_somes(s, j - 1);
    }
}

/// The empties of a settled column sit in its top part, and count the same
/// as before the settling.
proof fn lemma_packed_nones(s: Seq<Option<Color>>, j: int)
    requires
        0 <= j <= s.len(),
    ensures
        row_empties(packed(s), j) == if j <= s.len() - somes_in(s, s.len() as int).len() {
            j
        } else {
            s.len() - somes_in(s, s.len() as int).len()
        },
    decreases j,
{
    lemma_somes_in_len(s, s.len() as int);
    lemma_somes_in_some(s, s.len() as int);
    if j > 0 {
        lemma_packed_nones(s, j - 1);
    }
}

/// Gravity moves cells within their columns; it empties and fills none.
pub proof fn lemma_gravity_count(g: Cells)
    requires
        rect(g),
    ensures
        count_empty(gravity_spec(g)) == count_empty(g),
{
    let g2 = gravity_spec(g);
    assert(g2.len() == g.len());
    assert forall|i: int| 0 <= i < g2.len() implies (#[trigger] g2[i]).len() == cols(g) by {
        assert(g[i].len() == cols(g));
    }
    if g.len() > 0 {
        assert(g2[0].len() == cols(g));
    }
    assert(rect(g2));
    assert(cols(g2) == cols(g));
    lemma_row_col_exchange(g, g.len() as int);
    lemma_row_col_exchange(g2, g2.len() as int);
    assert forall|c: int| 0 <= c < cols(g) implies row_empties(column(g, c), g.len() as int)
        == row_empties(#[trigger] column(g2, c), g2.len() as int) by {
        assert forall|i: int| 0 <= i < g.len() implies #[trigger] column(g2, c)[i] == packed(
            column(g, c),
        )[i] by {
            assert(g2[i].len() == cols(g));
            assert(g2[i][c] == packed(column(g, c))[i]);
        }
        assert(column(g2, c) =~= packed(column(g, c)));
        lemma_packed_nones(column(g, c), g.len() as int);
        lemma_nones_somes(column(g, c), g.len() as int);
    }
    lemma_cols_sum_congruent(g2, g, cols(g), g.len() as int);
}

/// An occupied cell with no same-colored orthogonal neighbor is removed
/// alone: one move at it raises the board's empty-cell count by exactly one,
/// and changes nothing else but the settling of its own column.
pub proof fn lemma_isolated_removal(g: Cells, r: int, c: int)
    requires
        rect(g),
        occupied(g, r, c),
        forall|y: (int, int)| adj((r, c), y) ==> !has_color(g, y, color_at(g, r, c)),
    ensures
        count_empty(remove_spec(g, r, c)) == count_empty(g) + 1,
{
    let k = color_at(g, r, c);
    let src = (r, c);
    let gc = clear_spec(g, r, c);
    lemma_reach_refl(g, k, src);
    lemma_isolated_reach(g, k, src);
    assert forall|i: int| 0 <= i < g.len() implies #[trigger] gc[i] =~= g.update(
        r,
        g[r].update(c, None),
    )[i] by {
        assert(gc[i].len() == g[i].len());
        assert forall|j: int| 0 <= j < g[i].len() implies gc[i][j] == g.update(
            r,
            g[r].update(c, None),
        )[i][j] by {
            if reach(g, k, src, (i, j)) {
                assert((i, j) == src);
            }
        }
    }
    assert(gc =~= g.update(r, g[r].update(c, None)));
    lemma_empties_upto_update(g, r, c, g.len() as int);
    assert(count_empty(gc) == count_empty(g) + 1);
    assert forall|i: int| 0 <= i < gc.len() implies (#[trigger] gc[i]).len() == cols(gc) by {
        assert(gc[i].len() == g[i].len());
        assert(gc[0].len() == g[0].len());
    }
    assert(rect(gc));
    lemma_gravity_count(gc);
}

/// The occupied entries of a column prefix are at most as many as its length.
pub proof fn lemma_somes_in_len(s: Seq<Option<Color>>, j: int)
    ensures
        somes_in(s, j).len() <= if j <= 0 {
            0int
        } else {
            j
        },
    decreases j,
{
    if j > 0 {
        lemma_somes_in_len(s, j - 1);
    }
}

} // verus!
