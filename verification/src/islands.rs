//! Removal of small islands from a thresholded mask.
//!
//! The mask is a `w`×`h` grid of booleans in row-major order. An island is
//! a maximal 4-connected set of cells that hold the same value; the cleanup
//! turns every island of the chosen value that is smaller than a given
//! size into the other value, and leaves every other cell as it was.

use vstd::arithmetic::div_mod::*;
use vstd::prelude::*;

verus! {

/// Column of cell `i` in a row-major grid of width `w`.
pub open spec fn col(w: int, i: int) -> int {
    i % w
}

/// Row of cell `i` in a row-major grid of width `w`.
pub open spec fn row(w: int, i: int) -> int {
    i / w
}

/// Cells `i` and `j` of a `w`×`h` grid share an edge.
pub open spec fn neighbours(w: int, h: int, i: int, j: int) -> bool {
    &&& 0 <= i < w * h
    &&& 0 <= j < w * h
    &&& {
        ||| row(w, i) == row(w, j) && (col(w, i) == col(w, j) + 1 || col(w, j) == col(w, i) + 1)
        ||| col(w, i) == col(w, j) && (row(w, i) == row(w, j) + 1 || row(w, j) == row(w, i) + 1)
    }
}

/// The `k`-th step of `p` goes between neighbouring cells.
pub open spec fn step_ok(w: int, h: int, p: Seq<int>, k: int) -> bool {
    neighbours(w, h, p[k], p[k + 1])
}

/// `p` is a walk through cells of the grid that all hold `fg` in `g`,
/// each step going to a neighbouring cell.
pub open spec fn is_walk(g: Seq<bool>, w: int, h: int, fg: bool, p: Seq<int>) -> bool {
    &&& p.len() >= 1
    &&& forall|k: int| 0 <= k < p.len() ==> 0 <= #[trigger] p[k] < w * h && g[p[k]] == fg
    &&& forall|k: int| 0 <= k < p.len() - 1 ==> #[trigger] step_ok(w, h, p, k)
}

/// Cells `i` and `j` hold `fg` and lie on the same island of `fg` cells.
pub open spec fn connected(g: Seq<bool>, w: int, h: int, fg: bool, i: int, j: int) -> bool {
    exists|p: Seq<int>| #[trigger] is_walk(g, w, h, fg, p) && p[0] == i && p.last() == j
}

/// The island of `fg` cells that holds cell `i` (empty when `g[i] != fg`).
pub open spec fn island(g: Seq<bool>, w: int, h: int, fg: bool, i: int) -> Set<int> {
    Set::new(|j: int| connected(g, w, h, fg, i, j))
}

/// The number of cells on the island of `fg` cells that holds cell `i`.
pub open spec fn island_size(g: Seq<bool>, w: int, h: int, fg: bool, i: int) -> nat {
    island(g, w, h, fg, i).len()
}

/// The value that the cleanup leaves in cell `j` of `g`: cells of small
/// islands of `fg` take the other value, every other cell keeps its own.
pub open spec fn cleaned_cell(g: Seq<bool>, w: int, h: int, fg: bool, min_size: int, j: int) -> bool {
    if 0 <= j < w * h && g[j] == fg && island_size(g, w, h, fg, j) < min_size {
        !fg
    } else {
        g[j]
    }
}

/// The whole mask after the cleanup.
pub open spec fn cleaned(g: Seq<bool>, w: int, h: int, fg: bool, min_size: int) -> Seq<bool> {
    Seq::new(g.len(), |j: int| cleaned_cell(g, w, h, fg, min_size, j))
}

/// A set of cells that holds every `fg` neighbour of each of its cells.
pub open spec fn closed(g: Seq<bool>, w: int, h: int, fg: bool, s: Set<int>) -> bool {
    forall|p: int, q: int|
        #![trigger s.contains(p), neighbours(w, h, p, q)]
        s.contains(p) && neighbours(w, h, p, q) && g[q] == fg ==> s.contains(q)
}

// ---------------------------------------------------------------------------
// Grid geometry
// ---------------------------------------------------------------------------

/// A cell index splits into its row and column.
pub proof fn lemma_cell_coords(w: int, h: int, i: int)
    requires
        w > 0,
        0 <= i < w * h,
    ensures
        i == row(w, i) * w + col(w, i),
        0 <= col(w, i) < w,
        0 <= row(w, i) < h,
{
    lemma_fundamental_div_mod(i, w);
    lemma_mod_bound(i, w);
    let r = i / w;
    let c = i % w;
    assert(i == r * w + c) by (nonlinear_arith)
        requires
            i == w * r + c,
    ;
    assert(0 <= r) by (nonlinear_arith)
        requires
            i == r * w + c,
            0 <= c < w,
            i >= 0,
    ;
    assert(r < h) by (nonlinear_arith)
        requires
            i == r * w + c,
            0 <= c < w,
            i < w * h,
    ;
}

/// The cell at row `y` and column `x` has index `y * w + x`.
pub proof fn lemma_coords_cell(w: int, h: int, x: int, y: int)
    requires
        0 <= x < w,
        0 <= y < h,
    ensures
        0 <= y * w + x < w * h,
        row(w, y * w + x) == y,
        col(w, y * w + x) == x,
{
    assert(0 <= y * w + x < w * h) by (nonlinear_arith)
        requires
            0 <= x < w,
            0 <= y < h,
    ;
    lemma_fundamental_div_mod_converse(y * w + x, w, y, x);
}

/// The neighbours of a cell are the cells just left, right, above and
/// below it that lie inside the grid.
pub proof fn lemma_neighbour_cases(w: int, h: int, i: int, j: int)
    requires
        w > 0,
        0 <= i < w * h,
    ensures
        neighbours(w, h, i, j) <==> {
            ||| col(w, i) > 0 && j == i - 1
            ||| col(w, i) + 1 < w && j == i + 1
            ||| row(w, i) > 0 && j == i - w
            ||| row(w, i) + 1 < h && j == i + w
        },
{
    lemma_cell_coords(w, h, i);
    let x = col(w, i);
    let y = row(w, i);
    if col(w, i) > 0 && j == i - 1 {
        lemma_coords_cell(w, h, x - 1, y);
    }
    if col(w, i) + 1 < w && j == i + 1 {
        lemma_coords_cell(w, h, x + 1, y);
    }
    if row(w, i) > 0 && j == i - w {
        lemma_coords_cell(w, h, x, y - 1);
        assert((y - 1) * w + x == i - w) by (nonlinear_arith)
            requires
                i == y * w + x,
        ;
    }
    if row(w, i) + 1 < h && j == i + w {
        lemma_coords_cell(w, h, x, y + 1);
        assert((y + 1) * w + x == i + w) by (nonlinear_arith)
            requires
                i == y * w + x,
        ;
    }
    if neighbours(w, h, i, j) {
        lemma_cell_coords(w, h, j);
        let xj = col(w, j);
        let yj = row(w, j);
        if yj == y - 1 && xj == x {
            assert(j == i - w) by (nonlinear_arith)
                requires
                    i == y * w + x,
                    j == yj * w + xj,
                    yj == y - 1,
                    xj == x,
            ;
        }
        if yj == y + 1 && xj == x {
            assert(j == i + w) by (nonlinear_arith)
                requires
                    i == y * w + x,
                    j == yj * w + xj,
                    yj == y + 1,
                    xj == x,
            ;
        }
    }
}

// ---------------------------------------------------------------------------
// Walks and islands
// ---------------------------------------------------------------------------

/// The ends of a walk are `fg` cells of the grid.
pub proof fn lemma_connected_ends(g: Seq<bool>, w: int, h: int, fg: bool, i: int, j: int)
    requires
        connected(g, w, h, fg, i, j),
    ensures
        0 <= i < w * h,
        0 <= j < w * h,
        g[i] == fg,
        g[j] == fg,
{
    let p = choose|p: Seq<int>| #[trigger] is_walk(g, w, h, fg, p) && p[0] == i && p.last() == j;
    assert(0 <= p[0] < w * h && g[p[0]] == fg);
    assert(0 <= p[p.len() - 1] < w * h && g[p[p.len() - 1]] == fg);
}

/// Every `fg` cell lies on its own island.
pub proof fn lemma_connected_refl(g: Seq<bool>, w: int, h: int, fg: bool, i: int)
    requires
        0 <= i < w * h,
        g[i] == fg,
    ensures
        connected(g, w, h, fg, i, i),
{
    let p = seq![i];
    assert(is_walk(g, w, h, fg, p));
}

/// An island grows by a neighbouring `fg` cell.
pub proof fn lemma_connected_step(g: Seq<bool>, w: int, h: int, fg: bool, i: int, j: int, k: int)
    requires
        connected(g, w, h, fg, i, j),
        neighbours(w, h, j, k),
        g[k] == fg,
    ensures
        connected(g, w, h, fg, i, k),
{
    let p = choose|p: Seq<int>| #[trigger] is_walk(g, w, h, fg, p) && p[0] == i && p.last() == j;
    let q = p.push(k);
    assert forall|m: int| 0 <= m < q.len() implies 0 <= #[trigger] q[m] < w * h && g[q[m]] == fg by {
        if m < p.len() {
            assert(q[m] == p[m]);
        }
    }
    assert forall|m: int| 0 <= m < q.len() - 1 implies #[trigger] step_ok(w, h, q, m) by {
        if m < p.len() - 1 {
            assert(step_ok(w, h, p, m));
        }
    }
    assert(is_walk(g, w, h, fg, q));
}

/// Neighbourhood is symmetric.
pub proof fn lemma_neighbours_symmetric(w: int, h: int, i: int, j: int)
    ensures
        neighbours(w, h, i, j) == neighbours(w, h, j, i),
{
}

/// Lying on the same island is symmetric.
pub proof fn lemma_connected_symmetric(g: Seq<bool>, w: int, h: int, fg: bool, i: int, j: int)
    requires
        connected(g, w, h, fg, i, j),
    ensures
        connected(g, w, h, fg, j, i),
{
    let p = choose|p: Seq<int>| #[trigger] is_walk(g, w, h, fg, p) && p[0] == i && p.last() == j;
    let n = p.len();
    let q = Seq::new(n, |m: int| p[n - 1 - m]);
    assert forall|m: int| 0 <= m < q.len() implies 0 <= #[trigger] q[m] < w * h && g[q[m]] == fg by {
        assert(q[m] == p[n - 1 - m]);
    }
    assert forall|m: int| 0 <= m < q.len() - 1 implies #[trigger] step_ok(w, h, q, m) by {
        assert(step_ok(w, h, p, n - 2 - m));
        lemma_neighbours_symmetric(w, h, p[n - 2 - m], p[n - 1 - m]);
    }
    assert(is_walk(g, w, h, fg, q));
}

/// Lying on the same island is transitive.
pub proof fn lemma_connected_transitive(
    g: Seq<bool>,
    w: int,
    h: int,
    fg: bool,
    i: int,
    j: int,
    k: int,
)
    requires
        connected(g, w, h, fg, i, j),
        connected(g, w, h, fg, j, k),
    ensures
        connected(g, w, h, fg, i, k),
{
    let p1 = choose|p: Seq<int>| #[trigger] is_walk(g, w, h, fg, p) && p[0] == i && p.last() == j;
    let p2 = choose|p: Seq<int>| #[trigger] is_walk(g, w, h, fg, p) && p[0] == j && p.last() == k;
    let n1 = p1.len();
    let q = p1 + p2.subrange(1, p2.len() as int);
    assert forall|m: int| 0 <= m < q.len() implies 0 <= #[trigger] q[m] < w * h && g[q[m]] == fg by {
        if m < n1 {
            assert(q[m] == p1[m]);
        } else {
            assert(q[m] == p2[m - n1 + 1]);
        }
    }
    assert forall|m: int| 0 <= m < q.len() - 1 implies #[trigger] step_ok(w, h, q, m) by {
        if m < n1 - 1 {
            assert(step_ok(w, h, p1, m));
        } else if m == n1 - 1 {
            assert(step_ok(w, h, p2, 0));
            assert(q[m] == p2[0]);
            assert(q[m + 1] == p2[1]);
        } else {
            assert(step_ok(w, h, p2, m - n1 + 1));
            assert(q[m] == p2[m - n1 + 1]);
            assert(q[m + 1] == p2[m - n1 + 2]);
        }
    }
    assert(is_walk(g, w, h, fg, q));
    if p2.len() == 1 {
        assert(q =~= p1);
    } else {
        assert(q.last() == p2.last());
    }
}

/// Two cells of one island have the same island.
pub proof fn lemma_same_island(g: Seq<bool>, w: int, h: int, fg: bool, i: int, j: int)
    requires
        connected(g, w, h, fg, i, j),
    ensures
        island(g, w, h, fg, i) == island(g, w, h, fg, j),
{
    assert forall|k: int| connected(g, w, h, fg, i, k) implies connected(g, w, h, fg, j, k) by {
        lemma_connected_symmetric(g, w, h, fg, i, j);
        lemma_connected_transitive(g, w, h, fg, j, i, k);
    }
    assert forall|k: int| connected(g, w, h, fg, j, k) implies connected(g, w, h, fg, i, k) by {
        lemma_connected_transitive(g, w, h, fg, i, j, k);
    }
    assert(island(g, w, h, fg, i) =~= island(g, w, h, fg, j));
}

/// A closed set that holds a cell holds its whole island.
pub proof fn lemma_closed_holds_island(
    g: Seq<bool>,
    w: int,
    h: int,
    fg: bool,
    s: Set<int>,
    i: int,
    j: int,
)
    requires
        closed(g, w, h, fg, s),
        s.contains(i),
        connected(g, w, h, fg, i, j),
    ensures
        s.contains(j),
{
    let p = choose|p: Seq<int>| #[trigger] is_walk(g, w, h, fg, p) && p[0] == i && p.last() == j;
    lemma_closed_walk(g, w, h, fg, s, p, p.len() - 1);
}

/// Every cell of a walk that starts in a closed set lies in the set.
proof fn lemma_closed_walk(g: Seq<bool>, w: int, h: int, fg: bool, s: Set<int>, p: Seq<int>, m: int)
    requires
        closed(g, w, h, fg, s),
        is_walk(g, w, h, fg, p),
        s.contains(p[0]),
        0 <= m < p.len(),
    ensures
        s.contains(p[m]),
    decreases m,
{
    if m > 0 {
        lemma_closed_walk(g, w, h, fg, s, p, m - 1);
        assert(step_ok(w, h, p, m - 1));
        assert(0 <= p[m] < w * h && g[p[m]] == fg);
    }
}

// ---------------------------------------------------------------------------
// What the cleanup leaves
// ---------------------------------------------------------------------------

/// The start of a walk reaches each of its cells.
proof fn lemma_walk_prefix(g: Seq<bool>, w: int, h: int, fg: bool, p: Seq<int>, k: int)
    requires
        is_walk(g, w, h, fg, p),
        0 <= k < p.len(),
    ensures
        connected(g, w, h, fg, p[0], p[k]),
{
    let q = p.subrange(0, k + 1);
    assert forall|m: int| 0 <= m < q.len() implies 0 <= #[trigger] q[m] < w * h && g[q[m]] == fg by {
        assert(q[m] == p[m]);
    }
    assert forall|m: int| 0 <= m < q.len() - 1 implies #[trigger] step_ok(w, h, q, m) by {
        assert(step_ok(w, h, p, m));
        assert(q[m] == p[m]);
        assert(q[m + 1] == p[m + 1]);
    }
    assert(is_walk(g, w, h, fg, q));
}

/// The cleanup only turns `fg` cells into `!fg` cells.
pub proof fn lemma_cleanup_only_clears(g: Seq<bool>, w: int, h: int, fg: bool, min_size: int, j: int)
    requires
        0 <= j < g.len(),
    ensures
        cleaned(g, w, h, fg, min_size)[j] != g[j] ==> g[j] == fg && cleaned(g, w, h, fg, min_size)[j]
            == !fg,
        g[j] != fg ==> cleaned(g, w, h, fg, min_size)[j] == g[j],
{
}

/// An `fg` cell that survives the cleanup lies on the same island as
/// before it.
pub proof fn lemma_surviving_island_unchanged(
    g: Seq<bool>,
    w: int,
    h: int,
    fg: bool,
    min_size: int,
    j: int,
)
    requires
        g.len() >= w * h,
        0 <= j < w * h,
        cleaned(g, w, h, fg, min_size)[j] == fg,
    ensures
        island(cleaned(g, w, h, fg, min_size), w, h, fg, j) == island(g, w, h, fg, j),
        island_size(g, w, h, fg, j) >= min_size,
{
    let c = cleaned(g, w, h, fg, min_size);
    assert(g[j] == fg);
    assert forall|x: int| #[trigger] connected(c, w, h, fg, j, x) implies connected(g, w, h, fg, j, x) by {
        let p = choose|p: Seq<int>| #[trigger] is_walk(c, w, h, fg, p) && p[0] == j && p.last() == x;
        assert forall|m: int| 0 <= m < p.len() implies 0 <= #[trigger] p[m] < w * h && g[p[m]] == fg by {
            assert(0 <= p[m] < w * h && c[p[m]] == fg);
        }
        assert(is_walk(g, w, h, fg, p));
    }
    assert forall|x: int| #[trigger] connected(g, w, h, fg, j, x) implies connected(c, w, h, fg, j, x) by {
        let p = choose|p: Seq<int>| #[trigger] is_walk(g, w, h, fg, p) && p[0] == j && p.last() == x;
        assert forall|m: int| 0 <= m < p.len() implies 0 <= #[trigger] p[m] < w * h && c[p[m]] == fg by {
            assert(0 <= p[m] < w * h && g[p[m]] == fg);
            lemma_walk_prefix(g, w, h, fg, p, m);
            lemma_same_island(g, w, h, fg, j, p[m]);
        }
        assert(is_walk(c, w, h, fg, p));
    }
    assert(island(c, w, h, fg, j) =~= island(g, w, h, fg, j));
}

/// After the cleanup, no island of `fg` cells smaller than `min_size`
/// remains: every `fg` cell left lies on an island of at least `min_size`
/// cells.
pub proof fn lemma_no_small_island_remains(
    g: Seq<bool>,
    w: int,
    h: int,
    fg: bool,
    min_size: int,
    j: int,
)
    requires
        g.len() >= w * h,
        0 <= j < w * h,
        cleaned(g, w, h, fg, min_size)[j] == fg,
    ensures
        island_size(cleaned(g, w, h, fg, min_size), w, h, fg, j) >= min_size,
{
    lemma_surviving_island_unchanged(g, w, h, fg, min_size, j);
}

/// Cleaning a mask a second time, with the same value and size, changes
/// nothing.
pub proof fn lemma_cleanup_idempotent(g: Seq<bool>, w: int, h: int, fg: bool, min_size: int)
    requires
        g.len() >= w * h,
    ensures
        cleaned(cleaned(g, w, h, fg, min_size), w, h, fg, min_size) == cleaned(
            g,
            w,
            h,
            fg,
            min_size,
        ),
{
    let c = cleaned(g, w, h, fg, min_size);
    let c2 = cleaned(c, w, h, fg, min_size);
    assert forall|j: int| 0 <= j < c.len() implies c2[j] == c[j] by {
        if 0 <= j < w * h && c[j] == fg {
            lemma_no_small_island_remains(g, w, h, fg, min_size, j);
        }
    }
    assert(c2 =~= c);
}

// ---------------------------------------------------------------------------
// Sequences of distinct cells
// ---------------------------------------------------------------------------

/// A sequence of distinct indices below `n` has at most `n` elements.
proof fn lemma_distinct_below(s: Seq<usize>, n: int)
    requires
        n >= 0,
        s.no_duplicates(),
        forall|k: int| 0 <= k < s.len() ==> (#[trigger] s[k] as int) < n,
    ensures
        s.len() <= n,
{
    let t = s.map_values(|u: usize| u as int);
    assert(t.no_duplicates()) by {
        assert forall|a: int, b: int| 0 <= a < t.len() && 0 <= b < t.len() && a != b implies t[a]
            != t[b] by {
            assert(s[a] != s[b]);
        }
    }
    t.unique_seq_to_set();
    let r = Set::new(|x: int| 0 <= x < n);
    assert(r =~= vstd::set_lib::set_int_range(0, n));
    vstd::set_lib::lemma_int_range(0, n);
    assert(t.to_set().subset_of(r)) by {
        assert forall|x: int| t.to_set().contains(x) implies r.contains(x) by {
            let k = choose|k: int| 0 <= k < t.len() && t[k] == x;
            assert(s[k] as int == x);
        }
    }
    vstd::set_lib::lemma_len_subset(t.to_set(), r);
}

/// The cells of a sequence of distinct indices, as a set, count as many
/// as the sequence is long.
proof fn lemma_distinct_set_len(s: Seq<usize>, c: Set<int>)
    requires
        s.no_duplicates(),
        forall|x: int| c.contains(x) <==> exists|k: int| 0 <= k < s.len() && s[k] as int == x,
    ensures
        c.finite(),
        c.len() == s.len(),
{
    let t = s.map_values(|u: usize| u as int);
    assert(t.no_duplicates()) by {
        assert forall|a: int, b: int| 0 <= a < t.len() && 0 <= b < t.len() && a != b implies t[a]
            != t[b] by {
            assert(s[a] != s[b]);
        }
    }
    t.unique_seq_to_set();
    assert forall|x: int| c.contains(x) <==> t.to_set().contains(x) by {
        if c.contains(x) {
            let k = choose|k: int| 0 <= k < s.len() && s[k] as int == x;
            assert(t[k] == x);
        }
        if t.to_set().contains(x) {
            let k = choose|k: int| 0 <= k < t.len() && t[k] == x;
            assert(s[k] as int == x);
        }
    }
    assert(c =~= t.to_set());
}

// ---------------------------------------------------------------------------
// The flood fill
// ---------------------------------------------------------------------------

/// The state of a flood from `start`: `isl` holds the cells taken so far,
/// `stack` the cells found but not yet taken, `v` marks the cells seen
/// before the flood (`v0`) and during it; the first `closed_len` cells of
/// `isl` have all their `fg` neighbours marked.
spec fn flood_state(
    g0: Seq<bool>,
    b: Seq<bool>,
    w: int,
    h: int,
    fg: bool,
    start: int,
    v0: Seq<bool>,
    v: Seq<bool>,
    isl: Seq<usize>,
    stack: Seq<usize>,
    closed_len: int,
) -> bool {
    &&& w > 0
    &&& v0.len() == w * h
    &&& v.len() == w * h
    &&& b.len() >= w * h
    &&& g0.len() >= w * h
    &&& 0 <= start < w * h
    &&& forall|j: int|
        0 <= j < w * h ==> (#[trigger] v[j] <==> (v0[j] || isl.contains(j as usize)
            || stack.contains(j as usize)))
    &&& forall|k: int|
        0 <= k < isl.len() ==> {
            &&& (#[trigger] isl[k] as int) < w * h
            &&& connected(g0, w, h, fg, start, isl[k] as int)
            &&& !v0[isl[k] as int]
        }
    &&& forall|k: int|
        0 <= k < stack.len() ==> {
            &&& (#[trigger] stack[k] as int) < w * h
            &&& connected(g0, w, h, fg, start, stack[k] as int)
            &&& !v0[stack[k] as int]
        }
    &&& (isl + stack).no_duplicates()
    &&& forall|j: int| 0 <= j < w * h && !v0[j] ==> #[trigger] b[j] == g0[j]
    &&& forall|j: int| 0 <= j < w * h && #[trigger] connected(g0, w, h, fg, start, j) ==> !v0[j]
    &&& forall|j: int| 0 <= j < w * h && v0[j] ==> #[trigger] v[j]
    &&& 0 <= closed_len <= isl.len()
    &&& forall|k: int, q: int|
        #![trigger isl[k], neighbours(w, h, isl[k] as int, q)]
        0 <= k < closed_len && neighbours(w, h, isl[k] as int, q) && g0[q] == fg ==> v[q]
    &&& isl.len() == 0 ==> stack =~= seq![start as usize]
    &&& isl.len() > 0 ==> isl[0] as int == start
}

/// Moving the last found cell to the taken cells keeps them distinct.
proof fn lemma_move_last(isl: Seq<usize>, stack: Seq<usize>)
    requires
        (isl + stack).no_duplicates(),
        stack.len() > 0,
    ensures
        (isl.push(stack.last()) + stack.drop_last()).no_duplicates(),
        forall|u: usize|
            (isl.push(stack.last()).contains(u) || stack.drop_last().contains(u)) <==> (
            isl.contains(u) || stack.contains(u)),
{
    let a = isl + stack;
    let b = isl.push(stack.last()) + stack.drop_last();
    let n = isl.len() as int;
    let m = a.len() as int;
    assert(b.len() == m);
    assert forall|i: int| 0 <= i < m implies #[trigger] b[i] == a[if i < n {
        i
    } else if i == n {
        m - 1
    } else {
        i - 1
    }] by {}
    assert forall|i: int, j: int| 0 <= i < m && 0 <= j < m && i != j implies b[i] != b[j] by {
        let ai = if i < n {
            i
        } else if i == n {
            m - 1
        } else {
            i - 1
        };
        let aj = if j < n {
            j
        } else if j == n {
            m - 1
        } else {
            j - 1
        };
        assert(b[i] == a[ai]);
        assert(b[j] == a[aj]);
    }
    assert forall|u: usize|
        (isl.push(stack.last()).contains(u) || stack.drop_last().contains(u)) <==> (isl.contains(u)
            || stack.contains(u)) by {
        if isl.push(stack.last()).contains(u) {
            let k = choose|k: int| 0 <= k < n + 1 && isl.push(stack.last())[k] == u;
            if k < n {
                assert(isl[k] == u);
            } else {
                assert(stack[stack.len() - 1] == u);
            }
        }
        if stack.drop_last().contains(u) {
            let k = choose|k: int| 0 <= k < stack.len() - 1 && stack.drop_last()[k] == u;
            assert(stack[k] == u);
        }
        if isl.contains(u) {
            let k = choose|k: int| 0 <= k < n && isl[k] == u;
            assert(isl.push(stack.last())[k] == u);
        }
        if stack.contains(u) {
            let k = choose|k: int| 0 <= k < stack.len() && stack[k] == u;
            if k < stack.len() - 1 {
                assert(stack.drop_last()[k] == u);
            } else {
                assert(isl.push(stack.last())[n as int] == u);
            }
        }
    }
}

/// Marks cell `nidx` and pushes it on the stack when it holds `fg` and has
/// not been marked yet.
fn visit(
    binary: &[bool],
    visited: &mut Vec<bool>,
    stack: &mut Vec<usize>,
    nidx: usize,
    foreground: bool,
    Ghost(g0): Ghost<Seq<bool>>,
    Ghost(w): Ghost<int>,
    Ghost(h): Ghost<int>,
    Ghost(start): Ghost<int>,
    Ghost(v0): Ghost<Seq<bool>>,
    Ghost(isl): Ghost<Seq<usize>>,
    Ghost(closed_len): Ghost<int>,
    Ghost(idx): Ghost<int>,
)
    requires
        flood_state(
            g0,
            binary@,
            w,
            h,
            foreground,
            start,
            v0,
            old(visited)@,
            isl,
            old(stack)@,
            closed_len,
        ),
        connected(g0, w, h, foreground, start, idx),
        neighbours(w, h, idx, nidx as int),
        isl.len() > 0,
    ensures
        flood_state(
            g0,
            binary@,
            w,
            h,
            foreground,
            start,
            v0,
            final(visited)@,
            isl,
            final(stack)@,
            closed_len,
        ),
        g0[nidx as int] == foreground ==> final(visited)@[nidx as int],
        forall|j: int| 0 <= j < w * h && old(visited)@[j] ==> #[trigger] final(visited)@[j],
{
    if !visited[nidx] && binary[nidx] == foreground {
        let ghost s0 = stack@;
        let ghost vv = visited@;
        visited.set(nidx, true);
        stack.push(nidx);
        proof {
            let n = w * h;
            let j = nidx as int;
            assert(!v0[j]);
            assert(g0[j] == foreground);
            lemma_connected_step(g0, w, h, foreground, start, idx, j);
            assert(!isl.contains(nidx));
            assert(!s0.contains(nidx));
            assert(isl + stack@ =~= (isl + s0).push(nidx));
            assert(!(isl + s0).contains(nidx)) by {
                if (isl + s0).contains(nidx) {
                    let k = choose|k: int| 0 <= k < (isl + s0).len() && (isl + s0)[k] == nidx;
                    if k < isl.len() {
                        assert(isl[k] == nidx);
                    } else {
                        assert(s0[k - isl.len()] == nidx);
                    }
                }
            }
            assert forall|i: int| 0 <= i < n implies (#[trigger] visited@[i] <==> (v0[i]
                || isl.contains(i as usize) || stack@.contains(i as usize))) by {
                if i == j {
                    assert(stack@[s0.len() as int] == nidx);
                } else {
                    assert(visited@[i] == vv[i]);
                    if stack@.contains(i as usize) {
                        let k = choose|k: int| 0 <= k < stack@.len() && stack@[k] == i as usize;
                        assert(k < s0.len());
                        assert(s0[k] == i as usize);
                    }
                    if s0.contains(i as usize) {
                        let k = choose|k: int| 0 <= k < s0.len() && s0[k] == i as usize;
                        assert(stack@[k] == i as usize);
                    }
                }
            }
            assert forall|k: int| 0 <= k < stack@.len() implies {
                &&& (#[trigger] stack@[k] as int) < w * h
                &&& connected(g0, w, h, foreground, start, stack@[k] as int)
                &&& !v0[stack@[k] as int]
            } by {
                if k < s0.len() {
                    assert(stack@[k] == s0[k]);
                }
            }
        }
    }
}

/// Floods the island of `fg` cells that holds `start`, marking its cells,
/// and returns them.
#[verifier::spinoff_prover]
#[verifier::rlimit(60)]
fn flood_island(
    binary: &[bool],
    visited: &mut Vec<bool>,
    stack: &mut Vec<usize>,
    start: usize,
    w: usize,
    h: usize,
    foreground: bool,
    Ghost(g0): Ghost<Seq<bool>>,
) -> (isl: Vec<usize>)
    requires
        w * h <= usize::MAX,
        0 <= start < w * h,
        old(stack)@.len() == 0,
        old(visited)@.len() == w * h,
        binary@.len() >= w * h,
        g0.len() >= w * h,
        !old(visited)@[start as int],
        binary@[start as int] == foreground,
        forall|j: int| 0 <= j < w * h && !old(visited)@[j] ==> #[trigger] binary@[j] == g0[j],
        forall|j: int|
            0 <= j < w * h && #[trigger] connected(g0, w as int, h as int, foreground, start as int, j)
                ==> !old(visited)@[j],
    ensures
        final(stack)@.len() == 0,
        final(visited)@.len() == w * h,
        forall|j: int|
            0 <= j < w * h ==> #[trigger] final(visited)@[j] == (old(visited)@[j] || connected(
                g0,
                w as int,
                h as int,
                foreground,
                start as int,
                j,
            )),
        isl@.no_duplicates(),
        forall|k: int| 0 <= k < isl@.len() ==> (#[trigger] isl@[k] as int) < w * h,
        forall|x: int|
            island(g0, w as int, h as int, foreground, start as int).contains(x) <==> exists|k: int|
                0 <= k < isl@.len() && #[trigger] isl@[k] as int == x,
        island_size(g0, w as int, h as int, foreground, start as int) == isl@.len(),
{
    let ghost wi = w as int;
    let ghost hi = h as int;
    let ghost si = start as int;
    let ghost v0 = visited@;
    proof {
        assert(g0[si] == foreground);
        lemma_connected_refl(g0, wi, hi, foreground, si);
    }
    let mut isl: Vec<usize> = Vec::new();
    stack.push(start);
    visited.set(start, true);
    proof {
        assert(isl@ + stack@ =~= seq![start]);
        assert forall|j: int| 0 <= j < wi * hi implies (#[trigger] visited@[j] <==> (v0[j]
            || isl@.contains(j as usize) || stack@.contains(j as usize))) by {
            if j == si {
                assert(stack@[0] == start);
            } else {
                if stack@.contains(j as usize) {
                    assert(stack@[0] == j as usize);
                }
            }
        }
    }
    while stack.len() > 0
        invariant
            w * h <= usize::MAX,
            wi == w,
            hi == h,
            si == start,
            flood_state(g0, binary@, wi, hi, foreground, si, v0, visited@, isl@, stack@, isl@.len() as int),
        decreases wi * hi - isl@.len(),
    {
        proof {
            lemma_distinct_below(isl@ + stack@, wi * hi);
        }
        let ghost isl_before = isl@;
        let ghost stack_before = stack@;
        let idx = stack.pop().unwrap();
        isl.push(idx);
        proof {
            lemma_move_last(isl_before, stack_before);
            assert(stack_before.last() == idx);
            assert(stack@ =~= stack_before.drop_last());
            assert(isl@ =~= isl_before.push(idx));
            assert(stack_before[stack_before.len() - 1] == idx);
            assert forall|k: int| 0 <= k < stack@.len() implies {
                &&& (#[trigger] stack@[k] as int) < wi * hi
                &&& connected(g0, wi, hi, foreground, si, stack@[k] as int)
                &&& !v0[stack@[k] as int]
            } by {
                assert(stack@[k] == stack_before[k]);
            }
            assert forall|k: int| 0 <= k < isl@.len() implies {
                &&& (#[trigger] isl@[k] as int) < wi * hi
                &&& connected(g0, wi, hi, foreground, si, isl@[k] as int)
                &&& !v0[isl@[k] as int]
            } by {
                if k < isl_before.len() {
                    assert(isl@[k] == isl_before[k]);
                }
            }
            assert forall|j: int| 0 <= j < wi * hi implies (#[trigger] visited@[j] <==> (v0[j]
                || isl@.contains(j as usize) || stack@.contains(j as usize))) by {}
            assert forall|k: int, q: int|
                #![trigger isl@[k], neighbours(wi, hi, isl@[k] as int, q)]
                0 <= k < isl@.len() - 1 && neighbours(wi, hi, isl@[k] as int, q) && g0[q]
                    == foreground implies visited@[q] by {
                assert(isl@[k] == isl_before[k]);
            }
            assert(flood_state(
                g0,
                binary@,
                wi,
                hi,
                foreground,
                si,
                v0,
                visited@,
                isl@,
                stack@,
                isl@.len() - 1,
            ));
            lemma_cell_coords(wi, hi, idx as int);
        }
        let ghost cl = isl@.len() - 1;
        let x = idx % w;
        let y = idx / w;
        let ghost v_a = visited@;
        if x > 0 {
            proof {
                lemma_neighbour_cases(wi, hi, idx as int, idx - 1);
            }
            let nidx = y * w + (x - 1);
            visit(
                binary,
                visited,
                stack,
                nidx,
                foreground,
                Ghost(g0),
                Ghost(wi),
                Ghost(hi),
                Ghost(si),
                Ghost(v0),
                Ghost(isl@),
                Ghost(cl),
                Ghost(idx as int),
            );
        }
        let ghost v_b = visited@;
        if x + 1 < w {
            proof {
                lemma_neighbour_cases(wi, hi, idx as int, idx + 1);
            }
            let nidx = y * w + (x + 1);
            visit(
                binary,
                visited,
                stack,
                nidx,
                foreground,
                Ghost(g0),
                Ghost(wi),
                Ghost(hi),
                Ghost(si),
                Ghost(v0),
                Ghost(isl@),
                Ghost(cl),
                Ghost(idx as int),
            );
        }
        let ghost v_c = visited@;
        if y > 0 {
            proof {
                lemma_neighbour_cases(wi, hi, idx as int, idx - wi);
                assert((y - 1) * w + x == idx - w) by (nonlinear_arith)
                    requires
                        idx == y * w + x,
                        y > 0,
                ;
            }
            let nidx = (y - 1) * w + x;
            visit(
                binary,
                visited,
                stack,
                nidx,
                foreground,
                Ghost(g0),
                Ghost(wi),
                Ghost(hi),
                Ghost(si),
                Ghost(v0),
                Ghost(isl@),
                Ghost(cl),
                Ghost(idx as int),
            );
        }
        let ghost v_d = visited@;
        if y + 1 < h {
            proof {
                lemma_neighbour_cases(wi, hi, idx as int, idx + wi);
                assert((y + 1) * w + x == idx + w) by (nonlinear_arith)
                    requires
                        idx == y * w + x,
                ;
            }
            let nidx = (y + 1) * w + x;
            visit(
                binary,
                visited,
                stack,
                nidx,
                foreground,
                Ghost(g0),
                Ghost(wi),
                Ghost(hi),
                Ghost(si),
                Ghost(v0),
                Ghost(isl@),
                Ghost(cl),
                Ghost(idx as int),
            );
        }
        proof {
            assert forall|q: int|
                neighbours(wi, hi, idx as int, q) && g0[q] == foreground implies visited@[q] by {
                lemma_neighbour_cases(wi, hi, idx as int, q);
            }
            assert forall|k: int, q: int|
                #![trigger isl@[k], neighbours(wi, hi, isl@[k] as int, q)]
                0 <= k < isl@.len() && neighbours(wi, hi, isl@[k] as int, q) && g0[q]
                    == foreground implies visited@[q] by {
                if k == isl@.len() - 1 {
                    assert(isl@[k] == idx);
                }
            }
        }
    }
    proof {
        assert(isl@ + stack@ =~= isl@);
        let s = Set::new(|x: int| exists|k: int| 0 <= k < isl@.len() && #[trigger] isl@[k] as int == x);
        assert(closed(g0, wi, hi, foreground, s)) by {
            assert forall|p: int, q: int|
                #![trigger s.contains(p), neighbours(wi, hi, p, q)]
                s.contains(p) && neighbours(wi, hi, p, q) && g0[q] == foreground implies s.contains(q) by {
                let k = choose|k: int| 0 <= k < isl@.len() && #[trigger] isl@[k] as int == p;
                assert(visited@[q]);
                lemma_connected_step(g0, wi, hi, foreground, si, p, q);
                assert(!v0[q]);
                assert(isl@.contains(q as usize));
                let k2 = choose|k2: int| 0 <= k2 < isl@.len() && isl@[k2] == q as usize;
                assert(isl@[k2] as int == q);
            }
        }
        assert(s.contains(si)) by {
            assert(isl@[0] as int == si);
        }
        assert forall|x: int|
            island(g0, wi, hi, foreground, si).contains(x) <==> exists|k: int|
                0 <= k < isl@.len() && #[trigger] isl@[k] as int == x by {
            if island(g0, wi, hi, foreground, si).contains(x) {
                lemma_closed_holds_island(g0, wi, hi, foreground, s, si, x);
            }
            if exists|k: int| 0 <= k < isl@.len() && #[trigger] isl@[k] as int == x {
                let k = choose|k: int| 0 <= k < isl@.len() && #[trigger] isl@[k] as int == x;
                assert(connected(g0, wi, hi, foreground, si, isl@[k] as int));
            }
        }
        lemma_distinct_set_len(isl@, island(g0, wi, hi, foreground, si));
        assert forall|j: int| 0 <= j < wi * hi implies #[trigger] visited@[j] == (v0[j]
            || connected(g0, wi, hi, foreground, si, j)) by {
            if visited@[j] && !v0[j] {
                assert(isl@.contains(j as usize));
                let k = choose|k: int| 0 <= k < isl@.len() && isl@[k] == j as usize;
                assert(connected(g0, wi, hi, foreground, si, isl@[k] as int));
            }
            if connected(g0, wi, hi, foreground, si, j) {
                assert(island(g0, wi, hi, foreground, si).contains(j));
                let k = choose|k: int| 0 <= k < isl@.len() && #[trigger] isl@[k] as int == j;
                assert(isl@.contains(j as usize)) by {
                    assert(isl@[k] == j as usize);
                }
            }
        }
    }
    isl
}

// ---------------------------------------------------------------------------
// The cleanup
// ---------------------------------------------------------------------------

/// Removes small islands of `foreground` cells from the `w`×`h` mask
/// `binary`: every island of `foreground` cells (4-connected) with fewer
/// than `min_island_size` cells is set to `!foreground`; every other cell
/// keeps its value. Cells past `w * h` are left alone.
pub fn remove_small_islands(
    binary: &mut [bool],
    w: usize,
    h: usize,
    foreground: bool,
    min_island_size: usize,
)
    requires
        w * h <= usize::MAX,
        old(binary)@.len() >= w * h,
    ensures
        final(binary)@ == cleaned(old(binary)@, w as int, h as int, foreground, min_island_size as int),
{
    let n = w * h;
    let ghost g0 = binary@;
    let ghost wi = w as int;
    let ghost hi = h as int;
    let mut visited: Vec<bool> = vec![false; n];
    let mut stack: Vec<usize> = Vec::new();
    let mut start: usize = 0;
    while start < n
        invariant
            n == w * h,
            wi == w,
            hi == h,
            binary@.len() == g0.len(),
            g0.len() >= n,
            visited@.len() == n,
            stack@.len() == 0,
            start <= n,
            forall|j: int|
                0 <= j < n ==> #[trigger] visited@[j] == exists|k: int|
                    0 <= k < start && connected(g0, wi, hi, foreground, k, j),
            forall|j: int|
                0 <= j < g0.len() ==> #[trigger] binary@[j] == (if 0 <= j < n && visited@[j]
                    && island_size(g0, wi, hi, foreground, j) < min_island_size {
                    !foreground
                } else {
                    g0[j]
                }),
        decreases n - start,
    {
        let ghost v_before = visited@;
        let ghost b_before = binary@;
        let ghost si = start as int;
        if visited[start] || binary[start] != foreground {
            proof {
                assert forall|j: int| 0 <= j < n implies #[trigger] visited@[j] == exists|k: int|
                    0 <= k < start + 1 && connected(g0, wi, hi, foreground, k, j) by {
                    if connected(g0, wi, hi, foreground, si, j) {
                        lemma_connected_ends(g0, wi, hi, foreground, si, j);
                        assert(visited@[si]);
                        let k0 = choose|k: int| 0 <= k < start && connected(g0, wi, hi, foreground, k, si);
                        lemma_connected_transitive(g0, wi, hi, foreground, k0, si, j);
                    }
                }
            }
        } else {
            proof {
                assert(g0[si] == foreground);
                assert forall|j: int|
                    0 <= j < wi * hi && #[trigger] connected(g0, wi, hi, foreground, si, j)
                        implies !visited@[j] by {
                    if visited@[j] {
                        let k0 = choose|k: int| 0 <= k < start && connected(g0, wi, hi, foreground, k, j);
                        lemma_connected_symmetric(g0, wi, hi, foreground, si, j);
                        lemma_connected_transitive(g0, wi, hi, foreground, k0, j, si);
                        assert(visited@[si]);
                    }
                }
            }
            let isl = flood_island(binary, &mut visited, &mut stack, start, w, h, foreground, Ghost(g0));
            let small = isl.len() < min_island_size;
            if small {
                let mut k: usize = 0;
                while k < isl.len()
                    invariant
                        binary@.len() == b_before.len(),
                        b_before.len() >= n,
                        0 <= k <= isl@.len(),
                        forall|m: int| 0 <= m < isl@.len() ==> (#[trigger] isl@[m] as int) < n,
                        forall|j: int|
                            0 <= j < b_before.len() ==> #[trigger] binary@[j] == (if exists|m: int|
                                0 <= m < k && isl@[m] as int == j {
                                !foreground
                            } else {
                                b_before[j]
                            }),
                    decreases isl@.len() - k,
                {
                    binary[isl[k]] = !foreground;
                    proof {
                        assert forall|j: int| 0 <= j < b_before.len() implies #[trigger] binary@[j] == (
                        if exists|m: int| 0 <= m < k + 1 && isl@[m] as int == j {
                            !foreground
                        } else {
                            b_before[j]
                        }) by {
                            if j == isl@[k as int] as int {
                                assert(isl@[k as int] as int == j);
                            }
                        }
                    }
                    k = k + 1;
                }
            }
            proof {
                let size = isl@.len();
                assert forall|j: int| 0 <= j < n implies #[trigger] visited@[j] == exists|k: int|
                    0 <= k < start + 1 && connected(g0, wi, hi, foreground, k, j) by {
                    if connected(g0, wi, hi, foreground, si, j) {
                        assert(visited@[j]);
                    }
                    if v_before[j] {
                        let k0 = choose|k: int| 0 <= k < start && connected(g0, wi, hi, foreground, k, j);
                        assert(0 <= k0 < start + 1 && connected(g0, wi, hi, foreground, k0, j));
                    }
                }
                assert forall|j: int| 0 <= j < g0.len() implies #[trigger] binary@[j] == (if 0 <= j < n
                    && visited@[j] && island_size(g0, wi, hi, foreground, j) < min_island_size {
                    !foreground
                } else {
                    g0[j]
                }) by {
                    let in_isl = exists|m: int| 0 <= m < isl@.len() && #[trigger] isl@[m] as int == j;
                    if in_isl {
                        assert(island(g0, wi, hi, foreground, si).contains(j));
                        lemma_same_island(g0, wi, hi, foreground, si, j);
                        assert(visited@[j]);
                        assert(!v_before[j]);
                        assert(b_before[j] == g0[j]);
                        if small {
                            let m = choose|m: int| 0 <= m < isl@.len() && #[trigger] isl@[m] as int == j;
                            assert(0 <= m < isl@.len() && isl@[m] as int == j);
                        }
                    } else {
                        if 0 <= j < n {
                            if connected(g0, wi, hi, foreground, si, j) {
                                assert(island(g0, wi, hi, foreground, si).contains(j));
                            }
                            assert(visited@[j] == v_before[j]);
                        }
                        if small {
                            assert(!exists|m: int| 0 <= m < isl@.len() && isl@[m] as int == j);
                        }
                    }
                }
            }
        }
        start = start + 1;
    }
    proof {
        let c = cleaned(g0, wi, hi, foreground, min_island_size as int);
        assert forall|j: int| 0 <= j < g0.len() implies binary@[j] == c[j] by {
            if 0 <= j < n {
                if g0[j] == foreground {
                    lemma_connected_refl(g0, wi, hi, foreground, j);
                    assert(visited@[j]);
                } else {
                    if visited@[j] {
                        let k0 = choose|k: int| 0 <= k < start && connected(g0, wi, hi, foreground, k, j);
                        lemma_connected_ends(g0, wi, hi, foreground, k0, j);
                    }
                }
            }
        }
        assert(binary@ =~= c);
    }
}

} // verus!
