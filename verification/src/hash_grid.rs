//! The uniform spatial hash used by the collision broad phase.
//!
//! Points are hashed to one of `n` buckets by their integer cell
//! coordinates; the point indices are stored grouped by bucket key in
//! ascending key order, with a start offset per key. A query walks the nine
//! cells around a position and hands back every point whose bucket matches,
//! so it may return duplicates and strangers from colliding buckets but
//! never misses a point of a matching cell: callers filter by distance.

use vstd::prelude::*;

use crate::fixed::{fx_clip, fx_div_raw, fx_ok, iabs, FX_ONE};
use crate::world::seq_has;

verus! {

/// The integer cell coordinate of a scalar: the raw coordinate divided by
/// the raw cell size, rounded down.
pub open spec fn spec_to_cell(v: i64, cell: i64) -> int {
    (v as int) / (cell as int)
}

/// The bucket key of a cell: a two-prime hash folded into `size` buckets.
pub open spec fn spec_cell_key(cx: int, cy: int, size: int) -> int
    recommends
        size > 0,
{
    iabs(cx * 15823 + cy * 9737333) % size
}

/// Row `a` comes no later than row `b` in the canonical table order:
/// bucket key first, point index breaking ties.
pub open spec fn row_le(a: (u32, u32), b: (u32, u32)) -> bool {
    a.1 < b.1 || (a.1 == b.1 && a.0 <= b.0)
}

/// Some row of the table names point `i`.
pub open spec fn pairs_have(s: Seq<(u32, u32)>, i: int) -> bool {
    exists|j: int| 0 <= j < s.len() && ((#[trigger] s[j]).0 as int) == i
}

/// The grid the points and cell size determine: well formed, one row per
/// point carrying its bucket key, in canonical order (key, then point
/// index). These clauses pin the whole table: two grids matching the same
/// points and cell size are equal.
pub open spec fn grid_matches(g: HashGrid, points: Seq<(i64, i64)>, cell: i64) -> bool {
    &&& g.wf()
    &&& g.cell_size == cell
    &&& g.n_points() == points.len()
    &&& forall|j: int|
        0 <= j < g.n_points() ==> {
            let p = #[trigger] g.point_cell_keys@[j];
            (p.1 as int) == spec_cell_key(
                spec_to_cell(points[p.0 as int].0, cell),
                spec_to_cell(points[p.0 as int].1, cell),
                points.len() as int,
            )
        }
    &&& forall|i: int| 0 <= i < points.len() ==> #[trigger] pairs_have(g.point_cell_keys@, i)
    &&& forall|a: int, b: int|
        0 <= a < b < g.n_points() ==> row_le(
            #[trigger] g.point_cell_keys@[a],
            #[trigger] g.point_cell_keys@[b],
        ) && g.point_cell_keys@[a].0 != g.point_cell_keys@[b].0
}

pub struct HashGrid {
    pub cell_size: i64,
    pub point_cell_keys: Vec<(u32, u32)>,
    pub cell_start_indices: Vec<u32>,
}

/// Some row of the table equals `r`.
pub open spec fn rows_has(s: Seq<(u32, u32)>, r: (u32, u32)) -> bool {
    exists|j: int| 0 <= j < s.len() && #[trigger] s[j] == r
}

/// Two tables in strict canonical order with the same rows are equal.
pub proof fn lemma_sorted_rows_unique(s1: Seq<(u32, u32)>, s2: Seq<(u32, u32)>)
    requires
        s1.len() == s2.len(),
        forall|a: int, b: int|
            0 <= a < b < s1.len() ==> row_le(#[trigger] s1[a], #[trigger] s1[b]) && s1[a].0
                != s1[b].0,
        forall|a: int, b: int|
            0 <= a < b < s2.len() ==> row_le(#[trigger] s2[a], #[trigger] s2[b]) && s2[a].0
                != s2[b].0,
        forall|r: (u32, u32)| rows_has(s1, r) <==> rows_has(s2, r),
    ensures
        s1 == s2,
    decreases s1.len(),
{
    if s1.len() == 0 {
        assert(s1 =~= s2);
    } else {
        assert(rows_has(s1, s1[0])) by {
            assert(s1[0] == s1[0]);
        }
        assert(rows_has(s2, s1[0]));
        let j = choose|j: int| 0 <= j < s2.len() && #[trigger] s2[j] == s1[0];
        if j > 0 {
            assert(rows_has(s2, s2[0])) by {
                assert(s2[0] == s2[0]);
            }
            assert(rows_has(s1, s2[0]));
            let p = choose|p: int| 0 <= p < s1.len() && #[trigger] s1[p] == s2[0];
            assert(row_le(s2[0], s2[j]) && s2[0].0 != s2[j].0);
            if p > 0 {
                assert(row_le(s1[0], s1[p]) && s1[0].0 != s1[p].0);
            }
            assert(false);
        }
        assert(s2[0] == s1[0]);
        let t1 = s1.drop_first();
        let t2 = s2.drop_first();
        assert forall|a: int, b: int|
            0 <= a < b < t1.len() implies row_le(#[trigger] t1[a], #[trigger] t1[b]) && t1[a].0
            != t1[b].0 by {
            assert(t1[a] == s1[a + 1] && t1[b] == s1[b + 1]);
        }
        assert forall|a: int, b: int|
            0 <= a < b < t2.len() implies row_le(#[trigger] t2[a], #[trigger] t2[b]) && t2[a].0
            != t2[b].0 by {
            assert(t2[a] == s2[a + 1] && t2[b] == s2[b + 1]);
        }
        assert forall|r: (u32, u32)| rows_has(t1, r) <==> rows_has(t2, r) by {
            if rows_has(t1, r) {
                let k = choose|k: int| 0 <= k < t1.len() && #[trigger] t1[k] == r;
                assert(s1[k + 1] == r);
                assert(rows_has(s1, r));
                assert(r.0 != s1[0].0);
                let k2 = choose|k2: int| 0 <= k2 < s2.len() && #[trigger] s2[k2] == r;
                assert(k2 != 0);
                assert(t2[k2 - 1] == r);
                assert(rows_has(t2, r));
            }
            if rows_has(t2, r) {
                let k = choose|k: int| 0 <= k < t2.len() && #[trigger] t2[k] == r;
                assert(s2[k + 1] == r);
                assert(rows_has(s2, r));
                assert(r.0 != s2[0].0);
                let k2 = choose|k2: int| 0 <= k2 < s1.len() && #[trigger] s1[k2] == r;
                assert(k2 != 0);
                assert(t1[k2 - 1] == r);
                assert(rows_has(t1, r));
            }
        }
        lemma_sorted_rows_unique(t1, t2);
        assert(s1 =~= seq![s1[0]] + t1);
        assert(s2 =~= seq![s2[0]] + t2);
    }
}

/// The canonical grid is unique: two grids matching the same points and
/// cell size hold the same table, so `grid_matches` pins every query.
pub proof fn lemma_grid_matches_unique(
    g1: HashGrid,
    g2: HashGrid,
    points: Seq<(i64, i64)>,
    cell: i64,
)
    requires
        grid_matches(g1, points, cell),
        grid_matches(g2, points, cell),
    ensures
        g1.cell_size == g2.cell_size,
        g1.point_cell_keys@ == g2.point_cell_keys@,
        g1.cell_start_indices@ == g2.cell_start_indices@,
        forall|x: i64, y: i64| #[trigger] spec_find(g1, x, y) == spec_find(g2, x, y),
{
    let r1 = g1.point_cell_keys@;
    let r2 = g2.point_cell_keys@;
    assert forall|r: (u32, u32)| rows_has(r1, r) <==> rows_has(r2, r) by {
        if rows_has(r1, r) {
            let j = choose|j: int| 0 <= j < r1.len() && #[trigger] r1[j] == r;
            assert(pairs_have(r2, r.0 as int));
            let k = choose|k: int|
                0 <= k < r2.len() && ((#[trigger] r2[k]).0 as int) == r.0 as int;
            assert(r2[k] == r);
        }
        if rows_has(r2, r) {
            let j = choose|j: int| 0 <= j < r2.len() && #[trigger] r2[j] == r;
            assert(pairs_have(r1, r.0 as int));
            let k = choose|k: int|
                0 <= k < r1.len() && ((#[trigger] r1[k]).0 as int) == r.0 as int;
            assert(r1[k] == r);
        }
    }
    lemma_sorted_rows_unique(r1, r2);
    let n = g1.n_points();
    assert forall|key: int|
        0 <= key < n implies #[trigger] g1.cell_start_indices@[key]
        == g2.cell_start_indices@[key] by {
        let st1 = g1.cell_start_indices@[key];
        let st2 = g2.cell_start_indices@[key];
        if st1 != NO_CELL && st2 != NO_CELL {
            assert((r1[st1 as int].1 as int) == key);
            assert((r2[st2 as int].1 as int) == key);
            assert(g2.cell_start_indices@[(r2[st1 as int]).1 as int] != NO_CELL && (st2 as int)
                <= st1 as int);
            assert(g1.cell_start_indices@[(r1[st2 as int]).1 as int] != NO_CELL && (st1 as int)
                <= st2 as int);
        } else if st1 != NO_CELL {
            assert((r1[st1 as int].1 as int) == key);
            assert(g2.cell_start_indices@[(r2[st1 as int]).1 as int] != NO_CELL);
            assert(false);
        } else if st2 != NO_CELL {
            assert((r2[st2 as int].1 as int) == key);
            assert(g1.cell_start_indices@[(r1[st2 as int]).1 as int] != NO_CELL);
            assert(false);
        }
    }
    assert(g1.cell_start_indices@.len() == n && g2.cell_start_indices@.len() == n);
    assert forall|key: int|
        0 <= key < g1.cell_start_indices@.len() implies #[trigger] g1.cell_start_indices@[key]
        == g2.cell_start_indices@[key] by {
        assert(0 <= key < n);
    }
    assert(g1.cell_start_indices@ =~= g2.cell_start_indices@);
    assert forall|x: i64, y: i64| #[trigger] spec_find(g1, x, y) == spec_find(g2, x, y) by {
        lemma_cells_prefix_congruent(
            g1,
            g2,
            spec_to_cell(x, g1.cell_size),
            spec_to_cell(y, g1.cell_size),
            9,
        );
    }
}

/// Two grids with the same table answer every cell walk alike.
pub proof fn lemma_cells_prefix_congruent(g1: HashGrid, g2: HashGrid, cx: int, cy: int, count: int)
    requires
        g1.point_cell_keys@ == g2.point_cell_keys@,
        g1.cell_start_indices@ == g2.cell_start_indices@,
    ensures
        cells_prefix(g1, cx, cy, count) == cells_prefix(g2, cx, cy, count),
    decreases count,
{
    if count > 0 {
        lemma_cells_prefix_congruent(g1, g2, cx, cy, count - 1);
    }
}

/// Marker for a bucket key no point hashes to.
pub const NO_CELL: u32 = u32::MAX;

/// The point indices of the contiguous block of rows holding `key`,
/// starting at row `i`.
pub open spec fn scan_from(rows: Seq<(u32, u32)>, i: int, key: u32) -> Seq<u32>
    decreases rows.len() - i,
{
    if i < 0 || i >= rows.len() || rows[i].1 != key {
        Seq::empty()
    } else {
        seq![rows[i].0] + scan_from(rows, i + 1, key)
    }
}

/// The point indices stored under one bucket key.
pub open spec fn cell_candidates(g: HashGrid, key: int) -> Seq<u32> {
    if 0 <= key < g.cell_start_indices@.len() && g.cell_start_indices@[key] != NO_CELL {
        scan_from(g.point_cell_keys@, g.cell_start_indices@[key] as int, key as u32)
    } else {
        Seq::empty()
    }
}

/// The candidates of the first `count` of the nine cells around
/// `(cx, cy)`, walked row-major as the query does.
pub open spec fn cells_prefix(g: HashGrid, cx: int, cy: int, count: int) -> Seq<u32>
    decreases count,
{
    if count <= 0 {
        Seq::empty()
    } else {
        cells_prefix(g, cx, cy, count - 1) + cell_candidates(
            g,
            spec_cell_key(cx + (count - 1) / 3 - 1, cy + (count - 1) % 3 - 1, g.n_points()),
        )
    }
}

/// Exactly what a query returns: the candidates of the nine neighboring
/// cells, in walk order; nothing on an empty grid.
pub open spec fn spec_find(g: HashGrid, x: i64, y: i64) -> Seq<u32> {
    if g.n_points() == 0 {
        Seq::empty()
    } else {
        cells_prefix(g, spec_to_cell(x, g.cell_size), spec_to_cell(y, g.cell_size), 9)
    }
}

impl HashGrid {
    pub open spec fn n_points(self) -> int {
        self.point_cell_keys@.len() as int
    }

    /// The grid invariant: entries sorted by bucket key, every entry a
    /// genuine point index with its key, and every used key's start offset
    /// pointing at the first entry of its block.
    pub open spec fn wf(self) -> bool {
        let keys = self.point_cell_keys@;
        let n = self.n_points();
        &&& self.cell_size > 0
        &&& fx_ok(self.cell_size as int)
        &&& self.cell_start_indices@.len() == n
        &&& n <= NO_CELL as int
        &&& forall|j1: int, j2: int|
            0 <= j1 < j2 < n ==> (#[trigger] keys[j1]).1 <= (#[trigger] keys[j2]).1
        &&& forall|j: int|
            0 <= j < n ==> ((#[trigger] keys[j]).0 as int) < n && (keys[j].1 as int) < n
        &&& forall|j: int|
            0 <= j < n ==> {
                let st = self.cell_start_indices@[(#[trigger] keys[j]).1 as int];
                st != NO_CELL && (st as int) <= j
            }
        &&& forall|key: int|
            0 <= key < n && (#[trigger] self.cell_start_indices@[key]) != NO_CELL ==> (
            self.cell_start_indices@[key] as int) < n && (keys[
                self.cell_start_indices@[key] as int
            ].1 as int) == key
    }

    /// Build the grid over the given points. Each point is keyed by its
    /// cell; the table records, for every point index, its bucket key, in
    /// ascending key order.
    #[verifier::loop_isolation(false)]
    pub fn new(points: &Vec<(i64, i64)>, cell_size: i64) -> (r: HashGrid)
        requires
            cell_size > 0,
            fx_ok(cell_size as int),
            points@.len() <= NO_CELL as int,
            forall|i: int|
                0 <= i < points@.len() ==> fx_ok((#[trigger] points@[i]).0 as int) && fx_ok(
                    points@[i].1 as int,
                ),
        ensures
            r.wf(),
            r.cell_size == cell_size,
            r.n_points() == points@.len(),
            forall|j: int|
                0 <= j < points@.len() ==> {
                    let p = #[trigger] r.point_cell_keys@[j];
                    (p.1 as int) == spec_cell_key(
                        spec_to_cell(points@[p.0 as int].0, cell_size),
                        spec_to_cell(points@[p.0 as int].1, cell_size),
                        points@.len() as int,
                    )
                },
            forall|i: int|
                0 <= i < points@.len() ==> #[trigger] pairs_have(r.point_cell_keys@, i),
            grid_matches(r, points@, cell_size),
    {
        let n = points.len();
        if n == 0 {
            return HashGrid {
                cell_size,
                point_cell_keys: Vec::new(),
                cell_start_indices: Vec::new(),
            };
        }
        // Bucket keys of all points, in point order.
        let mut keys: Vec<u32> = Vec::new();
        let mut i: usize = 0;
        while i < n
            invariant
                i <= n,
                keys@.len() == i,
                forall|t: int|
                    0 <= t < i ==> (#[trigger] keys@[t] as int) == spec_cell_key(
                        spec_to_cell(points@[t].0, cell_size),
                        spec_to_cell(points@[t].1, cell_size),
                        n as int,
                    ) && (keys@[t] as int) < n,
            decreases n - i,
        {
            let (x, y) = points[i];
            let cx = Self::to_cell_coord_one(x, cell_size);
            let cy = Self::to_cell_coord_one(y, cell_size);
            let key = Self::cell_key(cx, cy, n);
            keys.push(key);
            i = i + 1;
        }
        // Pair every point with its key, then order the table by key.
        let mut pairs: Vec<(u32, u32)> = Vec::new();
        let mut t: usize = 0;
        while t < n
            invariant
                t <= n,
                keys@.len() == n,
                pairs@.len() == t,
                forall|j: int|
                    0 <= j < t ==> #[trigger] pairs@[j] == (j as u32, keys@[j]),
            decreases n - t,
        {
            pairs.push((t as u32, keys[t]));
            t = t + 1;
        }
        proof {
            assert forall|t2: int| 0 <= t2 < n implies #[trigger] pairs_have(pairs@, t2) by {
                assert(pairs@[t2].0 as int == t2);
            }
        }
        let mut i2: usize = 0;
        while i2 < n
            invariant
                i2 <= n,
                keys@.len() == n,
                pairs@.len() == n,
                forall|t2: int| 0 <= t2 < n ==> (#[trigger] keys@[t2] as int) < n,
                forall|j: int|
                    0 <= j < n ==> ((#[trigger] pairs@[j]).0 as int) < n && pairs@[j].1 == keys@[
                        pairs@[j].0 as int
                    ],
                forall|t2: int| 0 <= t2 < n ==> #[trigger] pairs_have(pairs@, t2),
                forall|a: int, b: int|
                    0 <= a < b < n ==> (#[trigger] pairs@[a]).0 != (#[trigger] pairs@[b]).0,
                forall|a: int, b: int|
                    0 <= a < b < i2 ==> row_le(#[trigger] pairs@[a], #[trigger] pairs@[b]),
                forall|a: int, b: int|
                    0 <= a < i2 && i2 <= b < n ==> row_le(
                        #[trigger] pairs@[a],
                        #[trigger] pairs@[b],
                    ),
            decreases n - i2,
        {
            let mut m: usize = i2;
            let mut c: usize = i2 + 1;
            while c < n
                invariant
                    i2 <= m < c <= n,
                    pairs@.len() == n,
                    forall|j: int| i2 <= j < c ==> row_le(pairs@[m as int], #[trigger] pairs@[j]),
                decreases n - c,
            {
                if pairs[c].1 < pairs[m].1 || (pairs[c].1 == pairs[m].1 && pairs[c].0
                    < pairs[m].0) {
                    m = c;
                }
                c = c + 1;
            }
            let ghost pairs0 = pairs@;
            let pi = pairs[i2];
            let pm = pairs[m];
            pairs.set(i2, pm);
            pairs.set(m, pi);
            proof {
                assert forall|t2: int| 0 <= t2 < n implies #[trigger] pairs_have(pairs@, t2) by {
                    assert(pairs_have(pairs0, t2));
                    let j = choose|j: int|
                        0 <= j < pairs0.len() && ((#[trigger] pairs0[j]).0 as int) == t2;
                    if j == i2 as int {
                        assert(pairs@[m as int].0 as int == t2);
                    } else if j == m as int {
                        assert(pairs@[i2 as int].0 as int == t2);
                    } else {
                        assert(pairs@[j].0 as int == t2);
                    }
                }
                assert forall|a: int, b: int|
                    0 <= a < b < n implies (#[trigger] pairs@[a]).0 != (#[trigger] pairs@[b]).0 by {
                    if a == i2 as int || a == m as int || b == i2 as int || b == m as int {
                        assert(pairs0[a as int].0 != pairs0[b as int].0 || true);
                        if a == i2 as int && b == m as int {
                        } else if a == i2 as int {
                            assert(pairs@[a] == pairs0[m as int] && pairs@[b] == pairs0[b]);
                        } else if b == m as int {
                            assert(pairs@[b] == pairs0[i2 as int] && pairs@[a] == pairs0[a]);
                        } else if a == m as int {
                            assert(pairs@[a] == pairs0[i2 as int] && pairs@[b] == pairs0[b]);
                        } else if b == i2 as int {
                            assert(pairs@[b] == pairs0[m as int] && pairs@[a] == pairs0[a]);
                        }
                    }
                }
            }
            i2 = i2 + 1;
        }
        // Start offsets: the first row of each used bucket key.
        let pn = pairs.len();
        let mut starts: Vec<u32> = Vec::new();
        let mut s: usize = 0;
        while s < n
            invariant
                s <= n,
                starts@.len() == s,
                forall|key: int| 0 <= key < s ==> #[trigger] starts@[key] == NO_CELL,
            decreases n - s,
        {
            starts.push(NO_CELL);
            s = s + 1;
        }
        let mut j: usize = 0;
        while j < pn
            invariant
                j <= pn,
                pn == pairs@.len(),
                starts@.len() == n,
                forall|jj: int|
                    0 <= jj < j ==> {
                        let st = starts@[(#[trigger] pairs@[jj]).1 as int];
                        st != NO_CELL && (st as int) <= jj
                    },
                forall|key: int|
                    0 <= key < n && (#[trigger] starts@[key]) != NO_CELL ==> (starts@[key] as int)
                        < j && (pairs@[starts@[key] as int].1 as int) == key,
            decreases pn - j,
        {
            let key = pairs[j].1;
            if starts[key as usize] == NO_CELL {
                starts.set(key as usize, j as u32);
            }
            j = j + 1;
        }
        HashGrid { cell_size, point_cell_keys: pairs, cell_start_indices: starts }
    }

    /// The integer cell coordinate of one scalar: the quotient rounded
    /// down, also for negative coordinates.
    fn to_cell_coord_one(v: i64, cell: i64) -> (r: i64)
        requires
            cell > 0,
            fx_ok(cell as int),
            fx_ok(v as int),
        ensures
            r == spec_to_cell(v, cell),
            -0x2000_0000_0000 <= r <= 0x2000_0000_0000,
    {
        if v >= 0 {
            v / cell
        } else {
            let q = (-v + (cell - 1)) / cell;
            proof {
                vstd::arithmetic::div_mod::lemma_fundamental_div_mod(v as int, cell as int);
                let qe = (v as int) / (cell as int);
                let re = (v as int) % (cell as int);
                assert((-v + (cell - 1)) as int == (-qe) * (cell as int) + (cell - 1 - re))
                    by (nonlinear_arith)
                    requires
                        v as int == qe * (cell as int) + re,
                ;
                vstd::arithmetic::div_mod::lemma_fundamental_div_mod_converse(
                    (-v + (cell - 1)) as int,
                    cell as int,
                    -qe,
                    (cell - 1 - re) as int,
                );
            }
            -q
        }
    }

    /// The bucket key of a cell.
    fn cell_key(cx: i64, cy: i64, size: usize) -> (r: u32)
        requires
            size > 0,
            size <= NO_CELL as int,
            -0x2000_0000_0002 < cx < 0x2000_0000_0002,
            -0x2000_0000_0002 < cy < 0x2000_0000_0002,
        ensures
            r as int == spec_cell_key(cx as int, cy as int, size as int),
            (r as int) < size,
    {
        let t: i128 = (cx as i128) * 15823 + (cy as i128) * 9737333;
        let m: u128 = if t < 0 {
            (-t) as u128
        } else {
            t as u128
        };
        (m % (size as u128)) as u32
    }

    /// Every point stored in the nine cells around `(x, y)`, by index.
    /// Colliding buckets may add strangers and overlapping cells may repeat
    /// an index; no point of a matching bucket is missed.
    #[verifier::loop_isolation(false)]
    pub fn find(&self, x: i64, y: i64) -> (r: Vec<u32>)
        requires
            self.wf(),
            fx_ok(x as int),
            fx_ok(y as int),
        ensures
            forall|k: int|
                0 <= k < r@.len() ==> ((#[trigger] r@[k]) as int) < self.n_points(),
            forall|j: int, di: int, dj: int|
                0 <= j < self.n_points() && -1 <= di <= 1 && -1 <= dj <= 1 && ((
                #[trigger] self.point_cell_keys@[j]).1 as int) == #[trigger] spec_cell_key(
                    spec_to_cell(x, self.cell_size) + di,
                    spec_to_cell(y, self.cell_size) + dj,
                    self.n_points(),
                ) ==> seq_has(r@, self.point_cell_keys@[j].0 as int),
            r@ == spec_find(*self, x, y),
            self.n_points() == 0 ==> r@.len() == 0,
    {
        let n = self.point_cell_keys.len();
        if n == 0 {
            return Vec::new();
        }
        let cx = Self::to_cell_coord_one(x, self.cell_size);
        let cy = Self::to_cell_coord_one(y, self.cell_size);
        let mut indices: Vec<u32> = Vec::new();
        let mut di: i64 = 0;
        while di < 3
            invariant
                0 <= di <= 3,
                indices@ == cells_prefix(*self, cx as int, cy as int, 3 * di),
                forall|k: int|
                    0 <= k < indices@.len() ==> ((#[trigger] indices@[k]) as int) < n,
                forall|j: int, d1: int, d2: int|
                    0 <= j < n && -1 <= d1 <= 1 && d1 < di - 1 && -1 <= d2 <= 1 && ((
                    #[trigger] self.point_cell_keys@[j]).1 as int) == #[trigger] spec_cell_key(
                        cx + d1,
                        cy + d2,
                        n as int,
                    ) ==> seq_has(indices@, self.point_cell_keys@[j].0 as int),
            decreases 3 - di,
        {
            let mut dj: i64 = 0;
            while dj < 3
                invariant
                    0 <= dj <= 3,
                    0 <= di < 3,
                    indices@ == cells_prefix(*self, cx as int, cy as int, 3 * di + dj),
                    forall|k: int|
                        0 <= k < indices@.len() ==> ((#[trigger] indices@[k]) as int) < n,
                    forall|j: int, d1: int, d2: int|
                        0 <= j < n && -1 <= d1 <= 1 && -1 <= d2 <= 1 && (d1 < di - 1 || (d1 == di
                            - 1 && d2 < dj - 1)) && ((#[trigger] self.point_cell_keys@[j]).1
                            as int) == #[trigger] spec_cell_key(cx + d1, cy + d2, n as int)
                            ==> seq_has(indices@, self.point_cell_keys@[j].0 as int),
                decreases 3 - dj,
            {
                let key = Self::cell_key(cx + (di - 1), cy + (dj - 1), n);
                proof {
                    let c = 3 * di + dj;
                    assert(c / 3 == di && c % 3 == dj) by (nonlinear_arith)
                        requires
                            0 <= dj < 3 && 0 <= di < 3 && c == 3 * di + dj,
                    ;
                }
                let ghost base = indices@;
                let start = self.cell_start_indices[key as usize];
                if start != NO_CELL {
                    let mut i: usize = start as usize;
                    while i < n && self.point_cell_keys[i].1 == key
                        invariant
                            start as int <= i as int <= n,
                            base + scan_from(self.point_cell_keys@, start as int, key) == indices@
                                + scan_from(self.point_cell_keys@, i as int, key),
                            forall|k: int|
                                0 <= k < indices@.len() ==> ((#[trigger] indices@[k]) as int) < n,
                            forall|j: int|
                                start as int <= j < i ==> seq_has(
                                    indices@,
                                    (#[trigger] self.point_cell_keys@[j]).0 as int,
                                ),
                            forall|j: int, d1: int, d2: int|
                                0 <= j < n && -1 <= d1 <= 1 && -1 <= d2 <= 1 && (d1 < di - 1 || (d1
                                    == di - 1 && d2 < dj - 1)) && ((
                                #[trigger] self.point_cell_keys@[j]).1 as int)
                                    == #[trigger] spec_cell_key(cx + d1, cy + d2, n as int)
                                    ==> seq_has(indices@, self.point_cell_keys@[j].0 as int),
                        decreases n - i,
                    {
                        let ghost ind0 = indices@;
                        indices.push(self.point_cell_keys[i].0);
                        proof {
                            assert(indices@[ind0.len() as int] == self.point_cell_keys@[i as int].0);
                            assert forall|j: int|
                                seq_has(ind0, j) implies seq_has(indices@, j) by {
                                let k = choose|k: int|
                                    0 <= k < ind0.len() && #[trigger] ind0[k] == j;
                                assert(indices@[k] == j);
                            }
                            assert(scan_from(self.point_cell_keys@, i as int, key) == seq![
                                self.point_cell_keys@[i as int].0,
                            ] + scan_from(self.point_cell_keys@, i + 1, key));
                            assert(base + scan_from(self.point_cell_keys@, start as int, key)
                                =~= indices@ + scan_from(self.point_cell_keys@, i + 1, key));
                        }
                        i = i + 1;
                    }
                    proof {
                        // every row of this bucket sits in the contiguous
                        // block the scan walked
                        assert forall|j: int|
                            0 <= j < n && ((#[trigger] self.point_cell_keys@[j]).1 as int) == key
                                as int implies seq_has(
                            indices@,
                            self.point_cell_keys@[j].0 as int,
                        ) by {
                            let st = self.cell_start_indices@[key as int] as int;
                            assert(st <= j);
                            if j >= i as int {
                                assert(self.point_cell_keys@[i as int].1
                                    >= self.point_cell_keys@[st].1);
                                assert(self.point_cell_keys@[i as int].1
                                    <= self.point_cell_keys@[j].1);
                                assert(false);
                            }
                        }
                    }
                }
                proof {
                    assert forall|j: int, d1: int, d2: int|
                        0 <= j < n && -1 <= d1 <= 1 && -1 <= d2 <= 1 && (d1 < di - 1 || (d1 == di
                            - 1 && d2 < dj)) && ((#[trigger] self.point_cell_keys@[j]).1 as int)
                            == #[trigger] spec_cell_key(cx + d1, cy + d2, n as int)
                            implies seq_has(indices@, self.point_cell_keys@[j].0 as int) by {
                        if d1 == di - 1 && d2 == dj - 1 {
                            let key2 = spec_cell_key(cx + d1, cy + d2, n as int);
                            assert(self.cell_start_indices@[key2] != NO_CELL);
                        }
                    }
                    assert(indices@ =~= cells_prefix(*self, cx as int, cy as int, 3 * di + dj + 1));
                }
                dj = dj + 1;
            }
            di = di + 1;
        }
        proof {
            assert(indices@ == spec_find(*self, x, y));
        }
        indices
    }
}

} // verus!
