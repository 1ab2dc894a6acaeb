use vstd::prelude::*;
use crate::grid::{parse_grid, grid_shape, cells_match};
use crate::day12::{dir_offset, offset, cell_of, lemma_cell_roundtrip, lemma_index_roundtrip};
use crate::day16::{count_false, lemma_count_false_set};

verus! {

pub open spec fn pow4(e: nat) -> nat
    decreases e,
{
    if e == 0 {
        1
    } else {
        4 * pow4((e - 1) as nat)
    }
}

proof fn lemma_pow4_table()
    ensures
        pow4(0) == 1,
        pow4(1) == 4,
        pow4(2) == 16,
        pow4(3) == 64,
        pow4(4) == 256,
        pow4(5) == 1024,
        pow4(6) == 4096,
        pow4(7) == 16384,
        pow4(8) == 65536,
        pow4(9) == 262144,
{
    assert(pow4(0) == 1);
    assert(pow4(1) == 4);
    assert(pow4(2) == 16);
    assert(pow4(3) == 64);
    assert(pow4(4) == 256);
    assert(pow4(5) == 1024);
    assert(pow4(6) == 4096);
    assert(pow4(7) == 16384);
    assert(pow4(8) == 65536);
    assert(pow4(9) == 262144);
}

proof fn lemma_pow4_le(a: nat, b: nat)
    requires
        a <= b,
    ensures
        pow4(a) <= pow4(b),
    decreases b,
{
    if a < b {
        lemma_pow4_le(a, (b - 1) as nat);
    }
}

/// A topographic map of heights 0 to 9.
pub struct TopoMap {
    pub tiles: Vec<u32>,
    pub width: usize,
    pub height: usize,
}

pub open spec fn digit_value(c: char) -> u32 {
    ((c as u32) - ('0' as u32)) as u32
}

impl TopoMap {
    pub open spec fn wf(&self) -> bool {
        &&& self.width >= 1
        &&& self.height >= 1
        &&& self.tiles@.len() == self.width * self.height
        &&& self.tiles@.len() < isize::MAX
    }

    pub open spec fn tile_spec(&self, x: int, y: int) -> Option<u32> {
        if 0 <= x < self.width && 0 <= y < self.height {
            Some(self.tiles@[y * self.width + x])
        } else {
            None
        }
    }

    /// Number of distinct trails of heights `h`, `h + 1`, ..., 9 that start
    /// at `(x, y)` and climb by one per step between neighbours.
    pub open spec fn trails(&self, x: int, y: int, h: int) -> nat
        decreases 10 - h,
    {
        if h > 9 || self.tile_spec(x, y) != Some(h as u32) {
            0
        } else if h == 9 {
            1
        } else {
            self.trails(x + dir_offset(0).0, y + dir_offset(0).1, h + 1) + self.trails(
                x + dir_offset(1).0,
                y + dir_offset(1).1,
                h + 1,
            ) + self.trails(x + dir_offset(2).0, y + dir_offset(2).1, h + 1) + self.trails(
                x + dir_offset(3).0,
                y + dir_offset(3).1,
                h + 1,
            )
        }
    }

    /// Peaks (cells of height 9) that such trails from `(x, y)` reach.
    pub open spec fn peaks(&self, x: int, y: int, h: int) -> Set<(int, int)>
        decreases 10 - h,
    {
        if h > 9 || self.tile_spec(x, y) != Some(h as u32) {
            Set::empty()
        } else if h == 9 {
            set![(x, y)]
        } else {
            self.peaks(x + dir_offset(0).0, y + dir_offset(0).1, h + 1).union(
                self.peaks(x + dir_offset(1).0, y + dir_offset(1).1, h + 1),
            ).union(self.peaks(x + dir_offset(2).0, y + dir_offset(2).1, h + 1)).union(
                self.peaks(x + dir_offset(3).0, y + dir_offset(3).1, h + 1),
            )
        }
    }

    /// Builds a map from grid text of digits; `None` where the text is not a
    /// rectangular grid or holds a character that is not a digit.
    pub fn new(input: &str) -> (r: Option<Self>)
        requires
            input@.len() < isize::MAX,
        ensures
            r matches Some(m) ==> m.wf() && grid_shape(input@, m.width as int, m.height as int) && forall|x: int, y: int|
                0 <= x < m.width && 0 <= y < m.height ==> '0' <= input@[y * (m.width + 1) + x] <= '9' && #[trigger] m.tile_spec(x, y)
                    == Some(digit_value(input@[y * (m.width + 1) + x])),
            r is None ==> !(exists|w: int, h: int| grid_shape(input@, w, h)) || (exists|i: int|
                0 <= i < input@.len() && input@[i] != '\n' && !('0' <= #[trigger] input@[i] <= '9')),
    {
        let (cells, width, height) = match parse_grid(input) {
            Some(g) => g,
            None => {
                return None;
            },
        };
        assert(cells@.len() <= input@.len()) by (nonlinear_arith)
            requires
                cells@.len() == width * height,
                grid_shape(input@, width as int, height as int),
        ;
        assert(width <= cells@.len() && height <= cells@.len()) by (nonlinear_arith)
            requires cells@.len() == width * height, width >= 1, height >= 1;
        let mut tiles: Vec<u32> = Vec::new();
        let mut k: usize = 0;
        while k < cells.len()
            invariant
                k <= cells@.len(),
                width >= 1,
                height >= 1,
                cells@.len() == width * height,
                grid_shape(input@, width as int, height as int),
                cells_match(cells@, input@, width as int, height as int),
                tiles@.len() == k,
                forall|j: int| 0 <= j < k ==> '0' <= #[trigger] cells@[j] <= '9' && tiles@[j] == digit_value(cells@[j]),
            decreases cells@.len() - k,
        {
            let c = cells[k];
            if !('0' <= c && c <= '9') {
                proof {
                    lemma_cell_roundtrip(width as int, height as int, k as int);
                    let x = cell_of(k as int, width as int).0;
                    let y = cell_of(k as int, width as int).1;
                    assert(cells@[y * width + x] == input@[y * (width + 1) + x]);
                    assert(y * width + x == k);
                    assert(0 <= y * (width + 1) + x < input@.len()) by (nonlinear_arith)
                        requires 0 <= x < width, 0 <= y < height, input@.len() >= height * (width + 1) - 1;
                    assert(input@[y * (width + 1) + x] != '\n') by {
                        vstd::arithmetic::div_mod::lemma_fundamental_div_mod_converse(
                            y * (width + 1) + x,
                            width + 1,
                            y,
                            x,
                        );
                    }
                }
                return None;
            }
            tiles.push((c as u32) - ('0' as u32));
            k += 1;
        }
        let m = TopoMap { tiles, width, height };
        proof {
            assert forall|x: int, y: int| 0 <= x < m.width && 0 <= y < m.height implies '0' <= input@[y * (m.width + 1) + x] <= '9'
                && #[trigger] m.tile_spec(x, y) == Some(digit_value(input@[y * (m.width + 1) + x])) by {
                lemma_index_roundtrip(width as int, height as int, (x, y));
                assert(cells@[y * width + x] == input@[y * (width + 1) + x]);
            }
        }
        Some(m)
    }

    /// The height at `pos`, or `None` outside the map.
    pub fn get_tile(&self, pos: (isize, isize)) -> (r: Option<u32>)
        requires
            self.wf(),
        ensures
            r == self.tile_spec(pos.0 as int, pos.1 as int),
    {
        let (x, y) = pos;
        if x < 0 || y < 0 {
            return None;
        }
        let x = x as usize;
        let y = y as usize;
        if x >= self.width || y >= self.height {
            return None;
        }
        proof {
            lemma_index_roundtrip(self.width as int, self.height as int, (x as int, y as int));
        }
        Some(self.tiles[y * self.width + x])
    }

    proof fn lemma_trails_bound(&self, x: int, y: int, h: int)
        requires
            0 <= h <= 9,
        ensures
            self.trails(x, y, h) <= pow4((9 - h) as nat),
        decreases 10 - h,
    {
        lemma_pow4_table();
        if h < 9 && self.tile_spec(x, y) == Some(h as u32) {
            self.lemma_trails_bound(x + dir_offset(0).0, y + dir_offset(0).1, h + 1);
            self.lemma_trails_bound(x + dir_offset(1).0, y + dir_offset(1).1, h + 1);
            self.lemma_trails_bound(x + dir_offset(2).0, y + dir_offset(2).1, h + 1);
            self.lemma_trails_bound(x + dir_offset(3).0, y + dir_offset(3).1, h + 1);
            assert(pow4((9 - h) as nat) == 4 * pow4((8 - h) as nat));
        }
    }

    /// Number of distinct trails from `pos`, which must have height `target`.
    pub fn count_unique_trails(&self, pos: (isize, isize), target: u32) -> (r: usize)
        requires
            self.wf(),
            target <= 9,
            isize::MIN + 10 - target <= pos.0 <= isize::MAX - 10 + target,
            isize::MIN + 10 - target <= pos.1 <= isize::MAX - 10 + target,
        ensures
            r == self.trails(pos.0 as int, pos.1 as int, target as int),
        decreases 10 - target,
    {
        proof {
            self.lemma_trails_bound(pos.0 as int, pos.1 as int, target as int);
            lemma_pow4_table();
        }
        match self.get_tile(pos) {
            None => 0,
            Some(h) => {
                if h != target {
                    0
                } else if h == 9 {
                    1
                } else {
                    let mut total: usize = 0;
                    let mut i: usize = 0;
                    while i < 4
                        invariant
                            self.wf(),
                            i <= 4,
                            target < 9,
                            isize::MIN + 10 - target <= pos.0 <= isize::MAX - 10 + target,
                            isize::MIN + 10 - target <= pos.1 <= isize::MAX - 10 + target,
                            total == (if i > 0 { self.trails(pos.0 + dir_offset(0).0, pos.1 + dir_offset(0).1, target + 1) } else { 0 })
                                + (if i > 1 { self.trails(pos.0 + dir_offset(1).0, pos.1 + dir_offset(1).1, target + 1) } else { 0 })
                                + (if i > 2 { self.trails(pos.0 + dir_offset(2).0, pos.1 + dir_offset(2).1, target + 1) } else { 0 })
                                + (if i > 3 { self.trails(pos.0 + dir_offset(3).0, pos.1 + dir_offset(3).1, target + 1) } else { 0 }),
                            total <= i * 65536,
                        decreases 4 - i,
                    {
                        let (dx, dy) = offset(i);
                        let sub = self.count_unique_trails((pos.0 + dx, pos.1 + dy), target + 1);
                        proof {
                            self.lemma_trails_bound(pos.0 + dx, pos.1 + dy, target + 1);
                            lemma_pow4_table();
                            lemma_pow4_le((8 - target) as nat, 8);
                        }
                        total = total + sub;
                        i += 1;
                    }
                    total
                }
            },
        }
    }
}

pub proof fn lemma_count_false_bound(s: Seq<bool>)
    ensures
        count_false(s) <= s.len(),
    decreases s.len(),
{
    if s.len() > 0 {
        lemma_count_false_bound(s.drop_last());
    }
}

impl TopoMap {
    /// Marks the peaks that trails from `pos`, of height `target`, reach and
    /// returns how many of them were not marked before.
    pub fn count_trail_peaks(&self, pos: (isize, isize), target: u32, visited: &mut Vec<bool>) -> (r: usize)
        requires
            self.wf(),
            target <= 9,
            isize::MIN + 10 - target <= pos.0 <= isize::MAX - 10 + target,
            isize::MIN + 10 - target <= pos.1 <= isize::MAX - 10 + target,
            old(visited)@.len() == self.tiles@.len(),
        ensures
            final(visited)@.len() == old(visited)@.len(),
            forall|k: int|
                0 <= k < old(visited)@.len() ==> #[trigger] final(visited)@[k] == (old(visited)@[k] || self.peaks(
                    pos.0 as int,
                    pos.1 as int,
                    target as int,
                ).contains(cell_of(k, self.width as int))),
            r + count_false(final(visited)@) == count_false(old(visited)@),
        decreases 10 - target,
    {
        let ghost wi = self.width as int;
        let ghost hi = self.height as int;
        let ghost p = (pos.0 as int, pos.1 as int);
        match self.get_tile(pos) {
            None => {
                assert forall|k: int| 0 <= k < visited@.len() implies #[trigger] visited@[k] == (visited@[k] || self.peaks(p.0, p.1, target as int).contains(cell_of(k, wi))) by {
                    assert(self.peaks(p.0, p.1, target as int) =~= Set::empty());
                }
                0
            },
            Some(h) => {
                if h != target {
                    assert forall|k: int| 0 <= k < visited@.len() implies #[trigger] visited@[k] == (visited@[k] || self.peaks(p.0, p.1, target as int).contains(cell_of(k, wi))) by {
                        assert(self.peaks(p.0, p.1, target as int) =~= Set::empty());
                    }
                    0
                } else if h == 9 {
                    let x = pos.0 as usize;
                    let y = pos.1 as usize;
                    proof {
                        lemma_index_roundtrip(wi, hi, p);
                    }
                    let idx = y * self.width + x;
                    let ghost v0 = visited@;
                    proof {
                        assert forall|k: int| 0 <= k < v0.len() implies (self.peaks(p.0, p.1, target as int).contains(cell_of(k, wi)) <==> k == idx) by {
                            lemma_cell_roundtrip(wi, hi, k);
                        }
                    }
                    if visited[idx] {
                        0
                    } else {
                        proof {
                            lemma_count_false_set(v0, idx as int);
                        }
                        visited.set(idx, true);
                        1
                    }
                } else {
                    let ghost v0 = visited@;
                    let mut total: usize = 0;
                    let mut i: usize = 0;
                    proof {
                        lemma_count_false_bound(v0);
                    }
                    while i < 4
                        invariant
                            self.wf(),
                            wi == self.width,
                            i <= 4,
                            target < 9,
                            isize::MIN + 10 - target <= pos.0 <= isize::MAX - 10 + target,
                            isize::MIN + 10 - target <= pos.1 <= isize::MAX - 10 + target,
                            p == (pos.0 as int, pos.1 as int),
                            v0.len() == self.tiles@.len(),
                            visited@.len() == v0.len(),
                            count_false(v0) <= v0.len(),
                            forall|k: int| 0 <= k < v0.len() ==> #[trigger] visited@[k] == (v0[k]
                                || (i > 0 && self.peaks(p.0 + dir_offset(0).0, p.1 + dir_offset(0).1, target + 1).contains(cell_of(k, wi)))
                                || (i > 1 && self.peaks(p.0 + dir_offset(1).0, p.1 + dir_offset(1).1, target + 1).contains(cell_of(k, wi)))
                                || (i > 2 && self.peaks(p.0 + dir_offset(2).0, p.1 + dir_offset(2).1, target + 1).contains(cell_of(k, wi)))
                                || (i > 3 && self.peaks(p.0 + dir_offset(3).0, p.1 + dir_offset(3).1, target + 1).contains(cell_of(k, wi)))),
                            total + count_false(visited@) == count_false(v0),
                        decreases 4 - i,
                    {
                        let (dx, dy) = offset(i);
                        let sub = self.count_trail_peaks((pos.0 + dx, pos.1 + dy), target + 1, visited);
                        total = total + sub;
                        i += 1;
                    }
                    proof {
                        assert forall|k: int| 0 <= k < v0.len() implies #[trigger] visited@[k] == (v0[k] || self.peaks(p.0, p.1, target as int).contains(cell_of(k, wi))) by {
                        }
                    }
                    total
                }
            },
        }
    }
}

} // verus!
