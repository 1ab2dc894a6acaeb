use vstd::prelude::*;
use crate::grid::{parse_grid, grid_shape, cells_match};
use crate::day16::{count_false, lemma_count_false_set};
use vstd::arithmetic::div_mod::{lemma_fundamental_div_mod, lemma_fundamental_div_mod_converse};

verus! {

/// Column and row offsets of the four neighbours, clockwise from up.
pub open spec fn dir_offset(i: int) -> (int, int) {
    if i == 0 {
        (0, -1)
    } else if i == 1 {
        (1, 0)
    } else if i == 2 {
        (0, 1)
    } else {
        (-1, 0)
    }
}

/// A plot grid: regions are connected cells that hold the same plant.
pub struct Garden {
    pub tiles: Vec<char>,
    pub width: usize,
    pub height: usize,
}

impl Garden {
    pub open spec fn wf(&self) -> bool {
        &&& self.width >= 1
        &&& self.height >= 1
        &&& self.tiles@.len() == self.width * self.height
        &&& self.tiles@.len() * 8 < usize::MAX
    }

    pub open spec fn in_bounds(&self, x: int, y: int) -> bool {
        0 <= x < self.width && 0 <= y < self.height
    }

    pub open spec fn tile_spec(&self, x: int, y: int) -> Option<char> {
        if self.in_bounds(x, y) {
            Some(self.tiles@[y * self.width + x])
        } else {
            None
        }
    }

    /// Neighbours, of the four, whose plot differs from that at `(x, y)`.
    pub open spec fn edges_spec(&self, x: int, y: int) -> int {
        self.edge_at(x, y, 0) + self.edge_at(x, y, 1) + self.edge_at(x, y, 2) + self.edge_at(x, y, 3)
    }

    pub open spec fn edge_at(&self, x: int, y: int, i: int) -> int {
        if self.tile_spec(x + dir_offset(i).0, y + dir_offset(i).1) != self.tile_spec(x, y) {
            1
        } else {
            0
        }
    }

    /// Corners of the region at `(x, y)` that meet at this cell: for each pair
    /// of adjacent sides, an outer corner where both sides differ, an inner
    /// corner where both match and the diagonal differs.
    pub open spec fn corners_spec(&self, x: int, y: int) -> int {
        self.corner_at(x, y, 0) + self.corner_at(x, y, 1) + self.corner_at(x, y, 2) + self.corner_at(x, y, 3)
    }

    pub open spec fn corner_at(&self, x: int, y: int, i: int) -> int {
        let a = dir_offset(i);
        let b = dir_offset((i + 1) % 4);
        let c = self.tile_spec(x, y);
        let t1 = self.tile_spec(x + a.0, y + a.1);
        let t2 = self.tile_spec(x + b.0, y + b.1);
        let diag = self.tile_spec(x + a.0 + b.0, y + a.1 + b.1);
        (if t1 != c && t2 != c {
            1int
        } else {
            0int
        }) + (if t1 == c && t2 == c && diag != c {
            1int
        } else {
            0int
        })
    }

    /// Builds a garden from grid text; `None` where the text is not a
    /// rectangular grid.
    pub fn new(input: &str) -> (r: Option<Self>)
        requires
            input@.len() * 8 < usize::MAX,
        ensures
            r is Some <==> exists|w: int, h: int| grid_shape(input@, w, h),
            r matches Some(g) ==> g.wf() && grid_shape(input@, g.width as int, g.height as int)
                && cells_match(g.tiles@, input@, g.width as int, g.height as int),
    {
        match parse_grid(input) {
            Some((tiles, width, height)) => {
                assert(tiles@.len() <= input@.len()) by (nonlinear_arith)
                    requires
                        tiles@.len() == width * height,
                        grid_shape(input@, width as int, height as int),
                ;
                Some(Garden { tiles, width, height })
            },
            None => None,
        }
    }

    /// The plot at `pos`, or `None` outside the grid.
    pub fn get_tile(&self, pos: (isize, isize)) -> (r: Option<char>)
        requires
            self.wf(),
        ensures
            r == self.tile_spec(pos.0 as int, pos.1 as int),
    {
        let (x, y) = pos;
        if x < 0 || y < 0 {
            return None;
        }
        let x = x as usize;
        let y = y as usize;
        if x >= self.width || y >= self.height {
            return None;
        }
        assert(0 <= y * self.width + x < self.width * self.height) by (nonlinear_arith)
            requires x < self.width, y < self.height;
        Some(self.tiles[y * self.width + x])
    }

    /// Number of sides of the cell at `pos` that face a different plot.
    pub fn count_edges(&self, pos: (isize, isize)) -> (r: usize)
        requires
            self.wf(),
            isize::MIN + 2 <= pos.0 <= isize::MAX - 2,
            isize::MIN + 2 <= pos.1 <= isize::MAX - 2,
        ensures
            r == self.edges_spec(pos.0 as int, pos.1 as int),
    {
        let target = self.get_tile(pos);
        let mut count: usize = 0;
        let mut i: usize = 0;
        while i < 4
            invariant
                self.wf(),
                i <= 4,
                isize::MIN + 2 <= pos.0 <= isize::MAX - 2,
                isize::MIN + 2 <= pos.1 <= isize::MAX - 2,
                target == self.tile_spec(pos.0 as int, pos.1 as int),
                count == (if i > 0 { self.edge_at(pos.0 as int, pos.1 as int, 0) } else { 0 }) + (if i > 1 {
                    self.edge_at(pos.0 as int, pos.1 as int, 1)
                } else {
                    0
                }) + (if i > 2 { self.edge_at(pos.0 as int, pos.1 as int, 2) } else { 0 }) + (if i > 3 {
                    self.edge_at(pos.0 as int, pos.1 as int, 3)
                } else {
                    0
                }),
            decreases 4 - i,
        {
            let (dx, dy) = offset(i);
            if self.get_tile((pos.0 + dx, pos.1 + dy)) != target {
                count += 1;
            }
            i += 1;
        }
        count
    }

    /// Number of region corners that meet at the cell at `pos`.
    pub fn count_corners(&self, pos: (isize, isize)) -> (r: usize)
        requires
            self.wf(),
            isize::MIN + 2 <= pos.0 <= isize::MAX - 2,
            isize::MIN + 2 <= pos.1 <= isize::MAX - 2,
        ensures
            r == self.corners_spec(pos.0 as int, pos.1 as int),
    {
        let centre = self.get_tile(pos);
        let mut count: usize = 0;
        let mut i: usize = 0;
        while i < 4
            invariant
                self.wf(),
                i <= 4,
                isize::MIN + 2 <= pos.0 <= isize::MAX - 2,
                isize::MIN + 2 <= pos.1 <= isize::MAX - 2,
                centre == self.tile_spec(pos.0 as int, pos.1 as int),
                count == (if i > 0 { self.corner_at(pos.0 as int, pos.1 as int, 0) } else { 0 }) + (if i > 1 {
                    self.corner_at(pos.0 as int, pos.1 as int, 1)
                } else {
                    0
                }) + (if i > 2 { self.corner_at(pos.0 as int, pos.1 as int, 2) } else { 0 }) + (if i > 3 {
                    self.corner_at(pos.0 as int, pos.1 as int, 3)
                } else {
                    0
                }),
                count <= 2 * i,
            decreases 4 - i,
        {
            let (d1x, d1y) = offset(i);
            let (d2x, d2y) = offset((i + 1) % 4);
            let t1 = self.get_tile((pos.0 + d1x, pos.1 + d1y));
            let t2 = self.get_tile((pos.0 + d2x, pos.1 + d2y));
            let diag = self.get_tile((pos.0 + d1x + d2x, pos.1 + d1y + d2y));
            if t1 != centre && t2 != centre {
                count += 1;
            }
            if t1 == centre && t2 == centre && diag != centre {
                count += 1;
            }
            i += 1;
        }
        count
    }
}

/// Offset of neighbour `i`, clockwise from up.
pub fn offset(i: usize) -> (r: (isize, isize))
    requires
        i < 4,
    ensures
        r.0 == dir_offset(i as int).0,
        r.1 == dir_offset(i as int).1,
{
    if i == 0 {
        (0, -1)
    } else if i == 1 {
        (1, 0)
    } else if i == 2 {
        (0, 1)
    } else {
        (-1, 0)
    }
}

/// The cell stored at index `k` of a row-major table of width `w`.
pub open spec fn cell_of(k: int, w: int) -> (int, int) {
    (k % w, k / w)
}

pub open spec fn is_neighbour(a: (int, int), b: (int, int)) -> bool {
    exists|i: int| 0 <= i < 4 && #[trigger] dir_offset(i) == (b.0 - a.0, b.1 - a.1)
}

impl Garden {
    pub open spec fn index(&self, c: (int, int)) -> int {
        c.1 * self.width + c.0
    }

    /// A chain of neighbouring cells of plant `plant`, none of them visited
    /// before.
    pub open spec fn is_region_path(&self, visited: Seq<bool>, plant: char, p: Seq<(int, int)>) -> bool {
        &&& p.len() >= 1
        &&& forall|i: int|
            0 <= i < p.len() ==> self.tile_spec((#[trigger] p[i]).0, p[i].1) == Some(plant) && !visited[self.index(p[i])]
        &&& forall|i: int| 0 <= i < p.len() - 1 ==> is_neighbour(#[trigger] p[i], p[i + 1])
    }

    /// The cells that chains of unvisited cells of one plant link to `start`.
    pub open spec fn region(&self, visited: Seq<bool>, start: (int, int)) -> Set<(int, int)> {
        Set::new(
            |c: (int, int)|
                exists|p: Seq<(int, int)>|
                    #[trigger] self.is_region_path(visited, self.tiles@[self.index(start)], p) && p[0] == start
                        && p.last() == c,
        )
    }

    /// Sum over the cells with `mask` set among the first `n`: one each
    /// (`which == 0`), their edges (`1`) or their corners (`2`).
    pub open spec fn masked_sum(&self, mask: Seq<bool>, which: int, n: int) -> int
        decreases n,
    {
        if n <= 0 {
            0
        } else {
            let c = cell_of(n - 1, self.width as int);
            self.masked_sum(mask, which, n - 1) + if mask[n - 1] {
                if which == 0 {
                    1
                } else if which == 1 {
                    self.edges_spec(c.0, c.1)
                } else {
                    self.corners_spec(c.0, c.1)
                }
            } else {
                0
            }
        }
    }
}

pub proof fn lemma_cell_roundtrip(w: int, h: int, k: int)
    requires
        w >= 1,
        0 <= k < w * h,
    ensures
        0 <= cell_of(k, w).0 < w,
        0 <= cell_of(k, w).1 < h,
        cell_of(k, w).1 * w + cell_of(k, w).0 == k,
{
    lemma_fundamental_div_mod(k, w);
    let x = k % w;
    let y = k / w;
    assert(0 <= x < w);
    assert(0 <= y < h) by (nonlinear_arith)
        requires k == w * y + x, 0 <= x < w, 0 <= k < w * h, w >= 1;
    assert(y * w + x == k) by (nonlinear_arith)
        requires k == w * y + x;
}

pub proof fn lemma_index_roundtrip(w: int, h: int, c: (int, int))
    requires
        0 <= c.0 < w,
        0 <= c.1 < h,
    ensures
        0 <= c.1 * w + c.0 < w * h,
        cell_of(c.1 * w + c.0, w) == c,
{
    assert(0 <= c.1 * w + c.0 < w * h) by (nonlinear_arith)
        requires 0 <= c.0 < w, 0 <= c.1 < h;
    lemma_fundamental_div_mod_converse(c.1 * w + c.0, w, c.1, c.0);
}

impl Garden {
    pub open spec fn cell_value(&self, which: int, k: int) -> int {
        let c = cell_of(k, self.width as int);
        if which == 0 {
            1
        } else if which == 1 {
            self.edges_spec(c.0, c.1)
        } else {
            self.corners_spec(c.0, c.1)
        }
    }

    proof fn lemma_masked_sum_set(&self, mask: Seq<bool>, which: int, n: int, k: int)
        requires
            0 <= k < n <= mask.len(),
            !mask[k],
        ensures
            self.masked_sum(mask.update(k, true), which, n) == self.masked_sum(mask, which, n) + self.cell_value(which, k),
        decreases n,
    {
        if k < n - 1 {
            self.lemma_masked_sum_set(mask, which, n - 1, k);
        } else {
            self.lemma_masked_sum_same(mask, mask.update(k, true), which, n - 1);
        }
    }

    proof fn lemma_masked_sum_same(&self, a: Seq<bool>, b: Seq<bool>, which: int, n: int)
        requires
            0 <= n <= a.len(),
            n <= b.len(),
            forall|i: int| 0 <= i < n ==> a[i] == b[i],
        ensures
            self.masked_sum(a, which, n) == self.masked_sum(b, which, n),
        decreases n,
    {
        if n > 0 {
            self.lemma_masked_sum_same(a, b, which, n - 1);
        }
    }

    proof fn lemma_cell_value_bounds(&self, k: int)
        ensures
            0 <= self.cell_value(1, k) <= 4,
            0 <= self.cell_value(2, k) <= 4,
    {
    }

    proof fn lemma_masked_sum_bounds(&self, mask: Seq<bool>, n: int)
        requires
            0 <= n <= mask.len(),
        ensures
            0 <= self.masked_sum(mask, 0, n) <= n,
            0 <= self.masked_sum(mask, 1, n) <= 4 * self.masked_sum(mask, 0, n),
            0 <= self.masked_sum(mask, 2, n) <= 4 * self.masked_sum(mask, 0, n),
        decreases n,
    {
        if n > 0 {
            self.lemma_masked_sum_bounds(mask, n - 1);
            self.lemma_cell_value_bounds(n - 1);
        }
    }
}

impl Garden {
    /// Closure of the fill: every neighbour of a finished cell that holds the
    /// same plant is visited.
    pub open spec fn closed_at(&self, visited: Seq<bool>, plant: char, k: int) -> bool {
        forall|i: int|
            0 <= i < 4 && #[trigger] self.tile_spec(
                cell_of(k, self.width as int).0 + dir_offset(i).0,
                cell_of(k, self.width as int).1 + dir_offset(i).1,
            ) == Some(plant) ==> visited[self.index(
                (cell_of(k, self.width as int).0 + dir_offset(i).0, cell_of(k, self.width as int).1 + dir_offset(i).1),
            )]
    }

    /// Fills the region of `start` over cells not yet visited, marks them
    /// visited, and returns its area, perimeter and number of corners (sides);
    /// `None` where `start` lies outside the grid or was visited before.
    #[verifier::rlimit(60)]
    pub fn explore_area(&self, start: (isize, isize), visited: &mut Vec<bool>) -> (r: Option<(usize, usize, usize)>)
        requires
            self.wf(),
            old(visited)@.len() == self.tiles@.len(),
        ensures
            final(visited)@.len() == old(visited)@.len(),
            !self.in_bounds(start.0 as int, start.1 as int) || old(visited)@[self.index((start.0 as int, start.1 as int))]
                ==> r is None && final(visited)@ == old(visited)@,
            self.in_bounds(start.0 as int, start.1 as int) && !old(visited)@[self.index((start.0 as int, start.1 as int))]
                ==> {
                let region = self.region(old(visited)@, (start.0 as int, start.1 as int));
                let fresh = Seq::new(
                    old(visited)@.len(),
                    |k: int| final(visited)@[k] && !old(visited)@[k],
                );
                &&& forall|k: int|
                    0 <= k < old(visited)@.len() ==> #[trigger] final(visited)@[k] == (old(visited)@[k]
                        || region.contains(cell_of(k, self.width as int)))
                &&& r == Some(
                    (
                        self.masked_sum(fresh, 0, fresh.len() as int) as usize,
                        self.masked_sum(fresh, 1, fresh.len() as int) as usize,
                        self.masked_sum(fresh, 2, fresh.len() as int) as usize,
                    ),
                )
            },
    {
        let ghost wi = self.width as int;
        let ghost hi = self.height as int;
        let ghost v0 = visited@;
        let ghost n = v0.len() as int;
        let ghost st = (start.0 as int, start.1 as int);
        let (sx, sy) = start;
        if sx < 0 || sy < 0 || sx as usize >= self.width || sy as usize >= self.height {
            return None;
        }
        let ux = sx as usize;
        let uy = sy as usize;
        proof {
            lemma_index_roundtrip(wi, hi, st);
        }
        let k0 = uy * self.width + ux;
        if visited[k0] {
            return None;
        }
        let target = self.tiles[k0];
        visited.set(k0, true);
        let mut queue: Vec<usize> = Vec::new();
        queue.push(k0);
        let ghost mut done: Seq<bool> = Seq::new(n as nat, |k: int| false);
        let mut count: usize = 0;
        let mut perimeter: usize = 0;
        let mut corners: usize = 0;
        proof {
            let p = seq![st];
            assert(self.is_region_path(v0, target, p));
            assert(self.masked_sum(done, 0, n) == 0) by {
                self.lemma_masked_sum_same(done, done, 0, n);
                lemma_masked_zero(self, done, 0, n);
            }
            lemma_masked_zero(self, done, 1, n);
            lemma_masked_zero(self, done, 2, n);
            assert forall|k: int| 0 <= k < n && #[trigger] visited@[k] && !v0[k] implies exists|p: Seq<(int, int)>|
                #[trigger] self.is_region_path(v0, target, p) && p[0] == st && p.last() == cell_of(k, wi) by {
                assert(k == k0);
                assert(self.is_region_path(v0, target, p));
            }
            assert forall|k: int| 0 <= k < n implies done[k] == (visited@[k] && !v0[k] && !queue@.contains(k as usize)) by {
                if visited@[k] && !v0[k] {
                    assert(k == k0);
                    assert(queue@[0] == k0);
                }
            }
        }
        while queue.len() > 0
            invariant
                self.wf(),
                wi == self.width,
                hi == self.height,
                n == self.tiles@.len(),
                v0.len() == n,
                visited@.len() == n,
                done.len() == n,
                self.in_bounds(st.0, st.1),
                target == self.tiles@[self.index(st)],
                !v0[self.index(st)],
                visited@[self.index(st)],
                0 <= self.index(st) < n,
                forall|k: int| 0 <= k < n && #[trigger] v0[k] ==> visited@[k],
                forall|i: int| 0 <= i < queue@.len() ==> (#[trigger] queue@[i]) < n && visited@[queue@[i] as int]
                    && !v0[queue@[i] as int],
                forall|i: int, j: int| 0 <= i < j < queue@.len() ==> queue@[i] != queue@[j],
                forall|k: int| 0 <= k < n ==> #[trigger] done[k] == (visited@[k] && !v0[k] && !queue@.contains(k as usize)),
                forall|k: int| 0 <= k < n && #[trigger] visited@[k] && !v0[k] ==> exists|p: Seq<(int, int)>|
                    #[trigger] self.is_region_path(v0, target, p) && p[0] == st && p.last() == cell_of(k, wi),
                forall|k: int| 0 <= k < n && #[trigger] done[k] ==> self.closed_at(visited@, target, k),
                count == self.masked_sum(done, 0, n),
                perimeter == self.masked_sum(done, 1, n),
                corners == self.masked_sum(done, 2, n),
            decreases count_false(visited@), queue@.len(),
        {
            let ghost q0 = queue@;
            let k = match queue.pop() {
                Some(v) => v,
                None => {
                    assert(false);
                    0
                },
            };
            proof {
                assert(q0 =~= queue@.push(k));
                lemma_cell_roundtrip(wi, hi, k as int);
                assert(!queue@.contains(k)) by {
                    if queue@.contains(k) {
                        let i = choose|i: int| 0 <= i < queue@.len() && queue@[i] == k;
                        assert(q0[i] == q0[q0.len() - 1]);
                    }
                }
                self.lemma_masked_sum_bounds(done, n);
                self.lemma_cell_value_bounds(k as int);
                assert(!done[k as int]) by {
                    assert(q0[q0.len() - 1] == k);
                }
                self.lemma_masked_sum_set(done, 0, n, k as int);
                self.lemma_masked_sum_set(done, 1, n, k as int);
                self.lemma_masked_sum_set(done, 2, n, k as int);
                self.lemma_masked_sum_bounds(done.update(k as int, true), n);
            }
            let x = (k % self.width) as isize;
            let y = (k / self.width) as isize;
            assert(self.width <= self.tiles@.len() && self.height <= self.tiles@.len()) by (nonlinear_arith)
                requires
                    self.tiles@.len() == self.width * self.height,
                    self.width >= 1,
                    self.height >= 1,
            ;
            perimeter += self.count_edges((x, y));
            corners += self.count_corners((x, y));
            count += 1;
            proof {
                done = done.update(k as int, true);
            }
            let ghost cf0 = count_false(visited@);
            let ghost ql0 = queue@.len();
            let mut i: usize = 0;
            while i < 4
                invariant
                    self.wf(),
                    wi == self.width,
                    hi == self.height,
                    n == self.tiles@.len(),
                    v0.len() == n,
                    visited@.len() == n,
                    done.len() == n,
                    k < n,
                    x == cell_of(k as int, wi).0,
                    y == cell_of(k as int, wi).1,
                    0 <= x < self.width,
                    0 <= y < self.height,
                    self.width <= self.tiles@.len(),
                    self.height <= self.tiles@.len(),
                    i <= 4,
                    visited@[k as int],
                    !v0[k as int],
                    !queue@.contains(k),
                    done[k as int],
                    self.in_bounds(st.0, st.1),
                    target == self.tiles@[self.index(st)],
                    forall|k2: int| 0 <= k2 < n && #[trigger] v0[k2] ==> visited@[k2],
                    forall|j: int| 0 <= j < queue@.len() ==> (#[trigger] queue@[j]) < n && visited@[queue@[j] as int]
                        && !v0[queue@[j] as int],
                    forall|a: int, b: int| 0 <= a < b < queue@.len() ==> queue@[a] != queue@[b],
                    forall|k2: int| 0 <= k2 < n ==> #[trigger] done[k2] == (visited@[k2] && !v0[k2] && !queue@.contains(k2 as usize)),
                    forall|k2: int| 0 <= k2 < n && #[trigger] visited@[k2] && !v0[k2] ==> exists|p: Seq<(int, int)>|
                        #[trigger] self.is_region_path(v0, target, p) && p[0] == st && p.last() == cell_of(k2, wi),
                    forall|k2: int| 0 <= k2 < n && k2 != k && #[trigger] done[k2] ==> self.closed_at(visited@, target, k2),
                    forall|j: int|
                        0 <= j < i && #[trigger] self.tile_spec(x + dir_offset(j).0, y + dir_offset(j).1) == Some(target)
                            ==> visited@[self.index((x + dir_offset(j).0, y + dir_offset(j).1))],
                    count_false(visited@) + queue@.len() == cf0 + ql0,
                    0 <= self.index(st) < n,
                    queue@.len() >= ql0,
                    visited@[self.index(st)],
                decreases 4 - i,
            {
                let (dx, dy) = offset(i);
                let nx = x + dx;
                let ny = y + dy;
                if self.get_tile((nx, ny)) == Some(target) {
                    let ghost nc = (nx as int, ny as int);
                    proof {
                        lemma_index_roundtrip(wi, hi, nc);
                    }
                    let nk = (ny as usize) * self.width + nx as usize;
                    if !visited[nk] {
                        self.enqueue(visited, &mut queue, k, nk, i, target, Ghost(v0), Ghost(done), Ghost(st));
                    }
                    assert(visited@[nk as int]);
                    assert(nk as int == self.index((x + dir_offset(i as int).0, y + dir_offset(i as int).1)));
                }
                proof {
                    assert forall|j: int|
                        0 <= j < i + 1 && #[trigger] self.tile_spec(x + dir_offset(j).0, y + dir_offset(j).1) == Some(target)
                            implies visited@[self.index((x + dir_offset(j).0, y + dir_offset(j).1))] by {
                        lemma_index_roundtrip(wi, hi, (x + dir_offset(j).0, y + dir_offset(j).1));
                    }
                }
                i += 1;
            }
        }
        proof {
            let fresh = Seq::new(n as nat, |k: int| visited@[k] && !v0[k]);
            assert(done =~= fresh);
            let region = self.region(v0, st);
            assert forall|k: int| 0 <= k < n implies #[trigger] visited@[k] == (v0[k] || region.contains(cell_of(k, wi))) by {
                lemma_cell_roundtrip(wi, hi, k);
                if visited@[k] && !v0[k] {
                    let p = choose|p: Seq<(int, int)>|
                        #[trigger] self.is_region_path(v0, target, p) && p[0] == st && p.last() == cell_of(k, wi);
                    assert(region.contains(cell_of(k, wi)));
                }
                if region.contains(cell_of(k, wi)) {
                    let p = choose|p: Seq<(int, int)>|
                        #[trigger] self.is_region_path(v0, target, p) && p[0] == st && p.last() == cell_of(k, wi);
                    self.lemma_path_filled(v0, visited@, done, target, st, p, p.len() - 1);
                    assert(self.index(p.last()) == k);
                }
            }
        }
        Some((count, perimeter, corners))
    }


    /// Marks the unvisited cell `nk`, a neighbour of `k` along `dir`, and
    /// queues it.
    fn enqueue(
        &self,
        visited: &mut Vec<bool>,
        queue: &mut Vec<usize>,
        k: usize,
        nk: usize,
        dir: usize,
        target: char,
        Ghost(v0): Ghost<Seq<bool>>,
        Ghost(done): Ghost<Seq<bool>>,
        Ghost(st): Ghost<(int, int)>,
    )
        requires
            self.wf(),
            v0.len() == self.tiles@.len(),
            old(visited)@.len() == v0.len(),
            done.len() == v0.len(),
            k < v0.len(),
            nk < v0.len(),
            dir < 4,
            cell_of(nk as int, self.width as int) == (cell_of(k as int, self.width as int).0 + dir_offset(dir as int).0, cell_of(
                k as int,
                self.width as int,
            ).1 + dir_offset(dir as int).1),
            self.tile_spec(cell_of(nk as int, self.width as int).0, cell_of(nk as int, self.width as int).1) == Some(target),
            !old(visited)@[nk as int],
            old(visited)@[k as int],
            !v0[k as int],
            self.in_bounds(st.0, st.1),
            forall|k2: int| 0 <= k2 < v0.len() && #[trigger] v0[k2] ==> old(visited)@[k2],
            forall|j: int| 0 <= j < old(queue)@.len() ==> (#[trigger] old(queue)@[j]) < v0.len() && old(visited)@[old(queue)@[j] as int]
                && !v0[old(queue)@[j] as int],
            forall|a: int, b: int| 0 <= a < b < old(queue)@.len() ==> old(queue)@[a] != old(queue)@[b],
            forall|k2: int| 0 <= k2 < v0.len() ==> #[trigger] done[k2] == (old(visited)@[k2] && !v0[k2] && !old(queue)@.contains(k2 as usize)),
            forall|k2: int| 0 <= k2 < v0.len() && #[trigger] old(visited)@[k2] && !v0[k2] ==> exists|p: Seq<(int, int)>|
                #[trigger] self.is_region_path(v0, target, p) && p[0] == st && p.last() == cell_of(k2, self.width as int),
            forall|k2: int| 0 <= k2 < v0.len() && k2 != k && #[trigger] done[k2] ==> self.closed_at(old(visited)@, target, k2),
        ensures
            final(visited)@ == old(visited)@.update(nk as int, true),
            final(queue)@ == old(queue)@.push(nk),
            count_false(final(visited)@) + 1 == count_false(old(visited)@),
            forall|k2: int| 0 <= k2 < v0.len() && #[trigger] v0[k2] ==> final(visited)@[k2],
            forall|j: int| 0 <= j < final(queue)@.len() ==> (#[trigger] final(queue)@[j]) < v0.len() && final(visited)@[final(queue)@[j] as int]
                && !v0[final(queue)@[j] as int],
            forall|a: int, b: int| 0 <= a < b < final(queue)@.len() ==> final(queue)@[a] != final(queue)@[b],
            forall|k2: int| 0 <= k2 < v0.len() ==> #[trigger] done[k2] == (final(visited)@[k2] && !v0[k2] && !final(queue)@.contains(k2 as usize)),
            forall|k2: int| 0 <= k2 < v0.len() && #[trigger] final(visited)@[k2] && !v0[k2] ==> exists|p: Seq<(int, int)>|
                #[trigger] self.is_region_path(v0, target, p) && p[0] == st && p.last() == cell_of(k2, self.width as int),
            forall|k2: int| 0 <= k2 < v0.len() && k2 != k && #[trigger] done[k2] ==> self.closed_at(final(visited)@, target, k2),
    {
        let ghost wi = self.width as int;
        let ghost vb = visited@;
        let ghost qb = queue@;
        let ghost nc = cell_of(nk as int, wi);
        proof {
            assert(!v0[nk as int]);
            let p = choose|p: Seq<(int, int)>|
                #[trigger] self.is_region_path(v0, target, p) && p[0] == st && p.last() == cell_of(k as int, wi);
            let p2 = p.push(nc);
            lemma_cell_roundtrip(wi, self.height as int, nk as int);
            assert(dir_offset(dir as int) == (nc.0 - p.last().0, nc.1 - p.last().1));
            assert(is_neighbour(p.last(), nc));
            assert(self.is_region_path(v0, target, p2)) by {
                assert forall|j: int| 0 <= j < p2.len() - 1 implies is_neighbour(#[trigger] p2[j], p2[j + 1]) by {
                    if j < p.len() - 1 {
                        assert(is_neighbour(p[j], p[j + 1]));
                    }
                }
                assert forall|j: int| 0 <= j < p2.len() implies self.tile_spec((#[trigger] p2[j]).0, p2[j].1) == Some(target)
                    && !v0[self.index(p2[j])] by {
                    if j < p.len() {
                        assert(p2[j] == p[j]);
                    }
                }
            }
            assert(p2[0] == st && p2.last() == cell_of(nk as int, wi));
            lemma_count_false_set(vb, nk as int);
        }
        visited.set(nk, true);
        queue.push(nk);
        proof {
            assert(queue@[qb.len() as int] == nk);
            assert forall|j: int| 0 <= j < queue@.len() implies (#[trigger] queue@[j]) < v0.len() && visited@[queue@[j] as int]
                && !v0[queue@[j] as int] by {
                if j < qb.len() {
                    assert(queue@[j] == qb[j]);
                }
            }
            assert forall|a: int, b: int| 0 <= a < b < queue@.len() implies queue@[a] != queue@[b] by {
                if b == qb.len() {
                    assert(queue@[a] == qb[a]);
                    assert(vb[qb[a] as int]);
                } else {
                    assert(queue@[a] == qb[a]);
                    assert(queue@[b] == qb[b]);
                }
            }
            assert forall|k2: int| 0 <= k2 < v0.len() implies #[trigger] done[k2] == (visited@[k2] && !v0[k2] && !queue@.contains(k2 as usize)) by {
                if k2 == nk as int {
                    assert(!done[k2]) by {
                        assert(!vb[k2]);
                    }
                    assert(queue@.contains(k2 as usize));
                } else {
                    if qb.contains(k2 as usize) {
                        let j = choose|j: int| 0 <= j < qb.len() && qb[j] == k2 as usize;
                        assert(queue@[j] == qb[j]);
                    }
                    if queue@.contains(k2 as usize) {
                        let j = choose|j: int| 0 <= j < queue@.len() && queue@[j] == k2 as usize;
                        assert(j < qb.len());
                        assert(qb[j] == queue@[j]);
                    }
                }
            }
            assert forall|k2: int| 0 <= k2 < v0.len() && #[trigger] visited@[k2] && !v0[k2] implies exists|p: Seq<(int, int)>|
                #[trigger] self.is_region_path(v0, target, p) && p[0] == st && p.last() == cell_of(k2, wi) by {
                if k2 != nk as int {
                    assert(vb[k2]);
                }
            }
            assert forall|k2: int| 0 <= k2 < v0.len() && k2 != k && #[trigger] done[k2] implies self.closed_at(visited@, target, k2) by {
                assert(self.closed_at(vb, target, k2));
                let c = cell_of(k2, wi);
                assert forall|i: int|
                    0 <= i < 4 && #[trigger] self.tile_spec(c.0 + dir_offset(i).0, c.1 + dir_offset(i).1) == Some(target)
                        implies visited@[self.index((c.0 + dir_offset(i).0, c.1 + dir_offset(i).1))] by {
                    lemma_index_roundtrip(wi, self.height as int, (c.0 + dir_offset(i).0, c.1 + dir_offset(i).1));
                    assert(vb[self.index((c.0 + dir_offset(i).0, c.1 + dir_offset(i).1))]);
                }
            }
        }
    }

    /// Every cell of a chain from `start` is visited once the fill is closed.
    proof fn lemma_path_filled(
        &self,
        v0: Seq<bool>,
        visited: Seq<bool>,
        done: Seq<bool>,
        target: char,
        st: (int, int),
        p: Seq<(int, int)>,
        j: int,
    )
        requires
            self.wf(),
            v0.len() == self.tiles@.len(),
            visited.len() == v0.len(),
            done.len() == v0.len(),
            self.in_bounds(st.0, st.1),
            visited[self.index(st)],
            !v0[self.index(st)],
            forall|k: int| 0 <= k < v0.len() ==> #[trigger] done[k] == (visited[k] && !v0[k]),
            forall|k: int| 0 <= k < v0.len() && #[trigger] done[k] ==> self.closed_at(visited, target, k),
            self.is_region_path(v0, target, p),
            p[0] == st,
            0 <= j < p.len(),
        ensures
            self.in_bounds(p[j].0, p[j].1),
            visited[self.index(p[j])],
        decreases j,
    {
        let wi = self.width as int;
        let hi = self.height as int;
        assert(self.tile_spec(p[j].0, p[j].1) == Some(target));
        if j > 0 {
            self.lemma_path_filled(v0, visited, done, target, st, p, j - 1);
            let a = p[j - 1];
            let ka = self.index(a);
            lemma_index_roundtrip(wi, hi, a);
            assert(!v0[ka]);
            assert(done[ka]);
            assert(is_neighbour(p[j - 1], p[j - 1 + 1]));
            let d = choose|d: int| 0 <= d < 4 && #[trigger] dir_offset(d) == (p[j].0 - a.0, p[j].1 - a.1);
            assert(self.closed_at(visited, target, ka));
            assert(self.tile_spec(cell_of(ka, wi).0 + dir_offset(d).0, cell_of(ka, wi).1 + dir_offset(d).1) == Some(target));
        }
    }
}

proof fn lemma_masked_zero(g: &Garden, mask: Seq<bool>, which: int, n: int)
    requires
        0 <= n <= mask.len(),
        forall|i: int| 0 <= i < mask.len() ==> !mask[i],
    ensures
        g.masked_sum(mask, which, n) == 0,
    decreases n,
{
    if n > 0 {
        lemma_masked_zero(g, mask, which, n - 1);
    }
}

} // verus!
