use vstd::prelude::*;
use crate::grid::{parse_grid, grid_shape, cells_match};
use crate::day12::{dir_offset, offset, cell_of, lemma_cell_roundtrip, lemma_index_roundtrip};
use crate::day16::{count_false, lemma_count_false_set};

verus! {

/// A guard's state: column, row and facing (0 up, then clockwise).
pub type Guard = (int, int, int);

/// A lab floor: `#` marks an obstacle.
pub struct Lab {
    pub tiles: Vec<char>,
    pub width: usize,
    pub height: usize,
}

impl Lab {
    pub open spec fn wf(&self) -> bool {
        &&& self.width >= 1
        &&& self.height >= 1
        &&& self.tiles@.len() == self.width * self.height
        &&& self.tiles@.len() * 4 < isize::MAX
    }

    pub open spec fn inside(&self, x: int, y: int) -> bool {
        0 <= x < self.width && 0 <= y < self.height
    }

    pub open spec fn blocked(&self, x: int, y: int, obs: Option<(int, int)>) -> bool {
        obs == Some((x, y)) || (self.inside(x, y) && self.tiles@[y * self.width + x] == '#')
    }

    /// One move: turn right before an obstacle, else step ahead.
    pub open spec fn next(&self, g: Guard, obs: Option<(int, int)>) -> Guard {
        let ahead = (g.0 + dir_offset(g.2).0, g.1 + dir_offset(g.2).1);
        if self.blocked(ahead.0, ahead.1, obs) {
            (g.0, g.1, (g.2 + 1) % 4)
        } else {
            (ahead.0, ahead.1, g.2)
        }
    }

    /// The state after `n` moves.
    pub open spec fn trace(&self, g: Guard, obs: Option<(int, int)>, n: nat) -> Guard
        decreases n,
    {
        if n == 0 {
            g
        } else {
            self.next(self.trace(g, obs, (n - 1) as nat), obs)
        }
    }

    /// The guard never leaves the floor.
    pub open spec fn stays(&self, g: Guard, obs: Option<(int, int)>) -> bool {
        forall|n: nat| #[trigger] self.inside(self.trace(g, obs, n).0, self.trace(g, obs, n).1)
    }

    pub open spec fn state_index(&self, g: Guard) -> int {
        (g.1 * self.width + g.0) * 4 + g.2
    }

    proof fn lemma_trace_add(&self, g: Guard, obs: Option<(int, int)>, a: nat, b: nat)
        ensures
            self.trace(g, obs, a + b) == self.trace(self.trace(g, obs, a), obs, b),
        decreases b,
    {
        if b > 0 {
            self.lemma_trace_add(g, obs, a, (b - 1) as nat);
            assert((a + b - 1) as nat == a + (b - 1) as nat);
        }
    }

    /// A repeated state means the guard walks the same cycle for ever.
    proof fn lemma_repeat_stays(&self, g: Guard, obs: Option<(int, int)>, t: nat, i: nat)
        requires
            t < i,
            self.trace(g, obs, t) == self.trace(g, obs, i),
            forall|m: nat| m <= i ==> #[trigger] self.inside(self.trace(g, obs, m).0, self.trace(g, obs, m).1),
        ensures
            self.stays(g, obs),
    {
        assert forall|n: nat| #[trigger] self.inside(self.trace(g, obs, n).0, self.trace(g, obs, n).1) by {
            self.lemma_repeat_at(g, obs, t, i, n);
        }
    }

    proof fn lemma_repeat_at(&self, g: Guard, obs: Option<(int, int)>, t: nat, i: nat, n: nat)
        requires
            t < i,
            self.trace(g, obs, t) == self.trace(g, obs, i),
            forall|m: nat| m <= i ==> #[trigger] self.inside(self.trace(g, obs, m).0, self.trace(g, obs, m).1),
        ensures
            self.inside(self.trace(g, obs, n).0, self.trace(g, obs, n).1),
        decreases n,
    {
        if n > i {
            let p = (i - t) as nat;
            let m = (n - p) as nat;
            self.lemma_repeat_at(g, obs, t, i, m);
            let k = (m - t) as nat;
            self.lemma_trace_add(g, obs, t, k);
            self.lemma_trace_add(g, obs, i, k);
            assert(i + k == n);
            assert(t + k == m);
        }
    }

    pub fn new(input: &str) -> (r: Option<Self>)
        requires
            input@.len() * 4 < isize::MAX,
        ensures
            r is Some <==> exists|w: int, h: int| grid_shape(input@, w, h),
            r matches Some(m) ==> m.wf() && grid_shape(input@, m.width as int, m.height as int)
                && cells_match(m.tiles@, input@, m.width as int, m.height as int),
    {
        match parse_grid(input) {
            Some((tiles, width, height)) => {
                assert(tiles@.len() <= input@.len()) by (nonlinear_arith)
                    requires
                        tiles@.len() == width * height,
                        grid_shape(input@, width as int, height as int),
                ;
                Some(Lab { tiles, width, height })
            },
            None => None,
        }
    }

    pub fn get_tile(&self, pos: (isize, isize)) -> (r: Option<char>)
        requires
            self.wf(),
        ensures
            r == (if self.inside(pos.0 as int, pos.1 as int) {
                Some(self.tiles@[pos.1 * self.width + pos.0])
            } else {
                None
            }),
    {
        let (x, y) = pos;
        if x < 0 || y < 0 || x as usize >= self.width || y as usize >= self.height {
            return None;
        }
        proof {
            lemma_index_roundtrip(self.width as int, self.height as int, (x as int, y as int));
        }
        Some(self.tiles[y as usize * self.width + x as usize])
    }

    /// The first position, row after row, that holds `c`.
    pub fn find(&self, c: char) -> (r: Option<(isize, isize)>)
        requires
            self.wf(),
        ensures
            r matches Some(p) ==> self.inside(p.0 as int, p.1 as int) && self.tiles@[p.1 * self.width + p.0] == c
                && forall|k: int| 0 <= k < p.1 * self.width + p.0 ==> self.tiles@[k] != c,
            r is None ==> forall|k: int| 0 <= k < self.tiles@.len() ==> self.tiles@[k] != c,
    {
        let mut k: usize = 0;
        while k < self.tiles.len()
            invariant
                self.wf(),
                k <= self.tiles@.len(),
                forall|j: int| 0 <= j < k ==> self.tiles@[j] != c,
            decreases self.tiles@.len() - k,
        {
            if self.tiles[k] == c {
                proof {
                    lemma_cell_roundtrip(self.width as int, self.height as int, k as int);
                    assert(self.width <= self.tiles@.len() && self.height <= self.tiles@.len()) by (nonlinear_arith)
                        requires self.tiles@.len() == self.width * self.height, self.width >= 1, self.height >= 1;
                }
                return Some(((k % self.width) as isize, (k / self.width) as isize));
            }
            k += 1;
        }
        None
    }

    /// Whether the cell ahead of `pos` along `dir` holds an obstacle or is
    /// the extra obstruction.
    pub fn obstructed(&self, pos: (isize, isize), dir: usize, obstruction: Option<(isize, isize)>) -> (r: bool)
        requires
            self.wf(),
            dir < 4,
            isize::MIN + 1 <= pos.0 <= isize::MAX - 1,
            isize::MIN + 1 <= pos.1 <= isize::MAX - 1,
        ensures
            r == self.blocked(
                pos.0 + dir_offset(dir as int).0,
                pos.1 + dir_offset(dir as int).1,
                match obstruction {
                    Some(o) => Some((o.0 as int, o.1 as int)),
                    None => None,
                },
            ),
    {
        let (dx, dy) = offset(dir);
        let next = (pos.0 + dx, pos.1 + dy);
        if let Some(o) = obstruction {
            if next.0 == o.0 && next.1 == o.1 {
                return true;
            }
        }
        match self.get_tile(next) {
            Some(c) => c == '#',
            None => false,
        }
    }
}

pub open spec fn obs_of(obstruction: Option<(isize, isize)>) -> Option<(int, int)> {
    match obstruction {
        Some(o) => Some((o.0 as int, o.1 as int)),
        None => None,
    }
}

impl Lab {
    pub open spec fn cell_index(&self, g: Guard) -> int {
        g.1 * self.width + g.0
    }

    proof fn lemma_state_index(&self, g: Guard)
        requires
            self.wf(),
            self.inside(g.0, g.1),
            0 <= g.2 < 4,
        ensures
            0 <= self.state_index(g) < self.tiles@.len() * 4,
            0 <= self.cell_index(g) < self.tiles@.len(),
            forall|h: Guard|
                self.inside(h.0, h.1) && 0 <= h.2 < 4 && #[trigger] self.state_index(h) == self.state_index(g) ==> h == g,
    {
        let w = self.width as int;
        lemma_index_roundtrip(w, self.height as int, (g.0, g.1));
        assert forall|h: Guard|
            self.inside(h.0, h.1) && 0 <= h.2 < 4 && #[trigger] self.state_index(h) == self.state_index(g) implies h == g by {
            lemma_index_roundtrip(w, self.height as int, (h.0, h.1));
            vstd::arithmetic::div_mod::lemma_fundamental_div_mod_converse(self.state_index(g), 4, self.cell_index(g), g.2);
            vstd::arithmetic::div_mod::lemma_fundamental_div_mod_converse(self.state_index(g), 4, self.cell_index(h), h.2);
        }
    }

    proof fn lemma_facing(&self, g: Guard, obs: Option<(int, int)>, n: nat)
        requires
            0 <= g.2 < 4,
        ensures
            0 <= self.trace(g, obs, n).2 < 4,
        decreases n,
    {
        if n > 0 {
            self.lemma_facing(g, obs, (n - 1) as nat);
        }
    }

    /// Walks the guard from `start`, facing up, until it leaves the floor or
    /// repeats a state: whether it repeated, and the cells it stood on.
    pub fn patrol(&self, start: (isize, isize), obstruction: Option<(isize, isize)>) -> (r: (bool, Vec<bool>))
        requires
            self.wf(),
            self.inside(start.0 as int, start.1 as int),
        ensures
            r.0 == self.stays((start.0 as int, start.1 as int, 0), obs_of(obstruction)),
            r.1@.len() == self.tiles@.len(),
            !r.0 ==> exists|n: nat|
                {
                    &&& !self.inside(
                        self.trace((start.0 as int, start.1 as int, 0), obs_of(obstruction), n).0,
                        self.trace((start.0 as int, start.1 as int, 0), obs_of(obstruction), n).1,
                    )
                    &&& forall|t: nat| t < n ==> #[trigger] self.inside(
                        self.trace((start.0 as int, start.1 as int, 0), obs_of(obstruction), t).0,
                        self.trace((start.0 as int, start.1 as int, 0), obs_of(obstruction), t).1,
                    )
                    &&& forall|c: int|
                        0 <= c < self.tiles@.len() ==> (#[trigger] r.1@[c] <==> exists|t: nat|
                            t < n && self.cell_index(
                                #[trigger] self.trace((start.0 as int, start.1 as int, 0), obs_of(obstruction), t),
                            ) == c)
                },
    {
        let ghost g0: Guard = (start.0 as int, start.1 as int, 0);
        let ghost obs = obs_of(obstruction);
        let n_states = self.tiles.len() * 4;
        let mut seen: Vec<bool> = Vec::new();
        while seen.len() < n_states
            invariant
                seen@.len() <= n_states,
                forall|i: int| 0 <= i < seen@.len() ==> !#[trigger] seen@[i],
            decreases n_states - seen@.len(),
        {
            seen.push(false);
        }
        let mut cells: Vec<bool> = Vec::new();
        while cells.len() < self.tiles.len()
            invariant
                cells@.len() <= self.tiles@.len(),
                forall|i: int| 0 <= i < cells@.len() ==> !#[trigger] cells@[i],
            decreases self.tiles@.len() - cells@.len(),
        {
            cells.push(false);
        }
        let mut x: isize = start.0;
        let mut y: isize = start.1;
        let mut d: usize = 0;
        let ghost mut i: nat = 0;
        assert(self.width <= self.tiles@.len() && self.height <= self.tiles@.len()) by (nonlinear_arith)
            requires self.tiles@.len() == self.width * self.height, self.width >= 1, self.height >= 1;
        while self.get_tile((x, y)).is_some()
            invariant
                self.wf(),
                g0 == (start.0 as int, start.1 as int, 0int),
                obs == obs_of(obstruction),
                n_states == self.tiles@.len() * 4,
                seen@.len() == n_states,
                cells@.len() == self.tiles@.len(),
                self.width <= self.tiles@.len(),
                self.height <= self.tiles@.len(),
                d < 4,
                (x as int, y as int, d as int) == self.trace(g0, obs, i),
                -1 <= x <= self.width,
                -1 <= y <= self.height,
                forall|t: nat| t < i ==> #[trigger] self.inside(self.trace(g0, obs, t).0, self.trace(g0, obs, t).1),
                forall|k: int| 0 <= k < n_states ==> (#[trigger] seen@[k] <==> exists|t: nat| t < i && self.state_index(#[trigger] self.trace(g0, obs, t)) == k),
                forall|c: int| 0 <= c < cells@.len() ==> (#[trigger] cells@[c] <==> exists|t: nat| t < i && self.cell_index(#[trigger] self.trace(g0, obs, t)) == c),
            decreases count_false(seen@),
        {
            let ghost cur = self.trace(g0, obs, i);
            proof {
                self.lemma_state_index(cur);
            }
            let k = ((y as usize) * self.width + x as usize) * 4 + d;
            let c = (y as usize) * self.width + x as usize;
            if seen[k] {
                proof {
                    let t = choose|t: nat| t < i && self.state_index(#[trigger] self.trace(g0, obs, t)) == k;
                    self.lemma_facing(g0, obs, t);
                    assert(self.inside(self.trace(g0, obs, t).0, self.trace(g0, obs, t).1));
                    assert(self.trace(g0, obs, t) == cur);
                    assert forall|m: nat| m <= i implies #[trigger] self.inside(self.trace(g0, obs, m).0, self.trace(g0, obs, m).1) by {
                        if m < i {
                        }
                    }
                    self.lemma_repeat_stays(g0, obs, t, i);
                }
                return (true, cells);
            }
            let ghost seen0 = seen@;
            let ghost cells0 = cells@;
            proof {
                lemma_count_false_set(seen0, k as int);
            }
            seen.set(k, true);
            cells.set(c, true);
            if self.obstructed((x, y), d, obstruction) {
                d = (d + 1) % 4;
            } else {
                let (dx, dy) = offset(d);
                x = x + dx;
                y = y + dy;
            }
            proof {
                assert(self.trace(g0, obs, i + 1) == self.next(cur, obs));
                assert forall|k2: int| 0 <= k2 < n_states implies (#[trigger] seen@[k2] <==> exists|t: nat| t < i + 1 && self.state_index(#[trigger] self.trace(g0, obs, t)) == k2) by {
                    if k2 == k as int {
                        assert(self.state_index(self.trace(g0, obs, i)) == k2);
                    } else {
                        assert(seen@[k2] == seen0[k2]);
                        if exists|t: nat| t < i + 1 && self.state_index(#[trigger] self.trace(g0, obs, t)) == k2 {
                            let t = choose|t: nat| t < i + 1 && self.state_index(#[trigger] self.trace(g0, obs, t)) == k2;
                            assert(t < i);
                        }
                    }
                }
                assert forall|c2: int| 0 <= c2 < cells@.len() implies (#[trigger] cells@[c2] <==> exists|t: nat| t < i + 1 && self.cell_index(#[trigger] self.trace(g0, obs, t)) == c2) by {
                    if c2 == c as int {
                        assert(self.cell_index(self.trace(g0, obs, i)) == c2);
                    } else {
                        assert(cells@[c2] == cells0[c2]);
                        if exists|t: nat| t < i + 1 && self.cell_index(#[trigger] self.trace(g0, obs, t)) == c2 {
                            let t = choose|t: nat| t < i + 1 && self.cell_index(#[trigger] self.trace(g0, obs, t)) == c2;
                            assert(t < i);
                        }
                    }
                }
                assert forall|t: nat| t < i + 1 implies #[trigger] self.inside(self.trace(g0, obs, t).0, self.trace(g0, obs, t).1) by {
                }
                i = i + 1;
            }
        }
        proof {
            assert(!self.inside(self.trace(g0, obs, i).0, self.trace(g0, obs, i).1));
            assert(!self.stays(g0, obs));
        }
        (false, cells)
    }

    /// Whether an extra obstruction at `obstruction` traps the guard in a loop.
    pub fn new_loop(&self, start: (isize, isize), obstruction: (isize, isize)) -> (r: bool)
        requires
            self.wf(),
            self.inside(start.0 as int, start.1 as int),
        ensures
            r == self.stays((start.0 as int, start.1 as int, 0), Some((obstruction.0 as int, obstruction.1 as int))),
    {
        let (looped, _) = self.patrol(start, Some(obstruction));
        looped
    }

    /// The cells the guard stands on before leaving the floor; `None` where
    /// it never leaves.
    pub fn guard_path(&self, start: (isize, isize)) -> (r: Option<Vec<bool>>)
        requires
            self.wf(),
            self.inside(start.0 as int, start.1 as int),
        ensures
            r is None <==> self.stays((start.0 as int, start.1 as int, 0), None),
            r matches Some(cells) ==> cells@.len() == self.tiles@.len() && exists|n: nat|
                {
                    &&& !self.inside(self.trace((start.0 as int, start.1 as int, 0), None, n).0, self.trace((start.0 as int, start.1 as int, 0), None, n).1)
                    &&& forall|t: nat| t < n ==> #[trigger] self.inside(self.trace((start.0 as int, start.1 as int, 0), None, t).0, self.trace((start.0 as int, start.1 as int, 0), None, t).1)
                    &&& forall|c: int| 0 <= c < self.tiles@.len() ==> (#[trigger] cells@[c] <==> exists|t: nat| t < n && self.cell_index(#[trigger] self.trace((start.0 as int, start.1 as int, 0), None, t)) == c)
                },
    {
        let (looped, cells) = self.patrol(start, None);
        if looped {
            None
        } else {
            Some(cells)
        }
    }
}

impl Lab {
    /// Cells among the first `k` on the path, other than the start, where an
    /// extra obstruction traps the guard.
    pub open spec fn loop_count(&self, start: (int, int), path: Seq<bool>, k: int) -> nat
        decreases k,
    {
        if k <= 0 {
            0
        } else {
            let c = cell_of(k - 1, self.width as int);
            self.loop_count(start, path, k - 1) + if path[k - 1] && c != start && self.stays((start.0, start.1, 0), Some(c)) {
                1nat
            } else {
                0nat
            }
        }
    }

    /// Number of cells on the path, other than the start, where an extra
    /// obstruction traps the guard in a loop.
    pub fn count_loops(&self, start: (isize, isize), path: &Vec<bool>) -> (r: usize)
        requires
            self.wf(),
            self.inside(start.0 as int, start.1 as int),
            path@.len() == self.tiles@.len(),
        ensures
            r == self.loop_count((start.0 as int, start.1 as int), path@, path@.len() as int),
    {
        let mut count: usize = 0;
        let mut k: usize = 0;
        while k < path.len()
            invariant
                self.wf(),
                self.inside(start.0 as int, start.1 as int),
                path@.len() == self.tiles@.len(),
                k <= path@.len(),
                count <= k,
                count == self.loop_count((start.0 as int, start.1 as int), path@, k as int),
            decreases path@.len() - k,
        {
            if path[k] {
                proof {
                    lemma_cell_roundtrip(self.width as int, self.height as int, k as int);
                    assert(self.width <= self.tiles@.len() && self.height <= self.tiles@.len()) by (nonlinear_arith)
                        requires self.tiles@.len() == self.width * self.height, self.width >= 1, self.height >= 1;
                }
                let pos = ((k % self.width) as isize, (k / self.width) as isize);
                if !(pos.0 == start.0 && pos.1 == start.1) && self.new_loop(start, pos) {
                    count += 1;
                }
            }
            k += 1;
        }
        count
    }
}

} // verus!
