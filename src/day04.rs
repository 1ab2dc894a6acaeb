use vstd::prelude::*;
use crate::grid::{parse_grid, grid_shape, cells_match};

verus! {

/// Largest grid side the searches accept: coordinates and steps fit in `i32`.
pub const MAX_SIDE: usize = 0x1000_0000;

/// The eight directions of a word, as column and row steps.
pub open spec fn direction_spec(d: int) -> (int, int) {
    if d == 0 {
        (0, 1)
    } else if d == 1 {
        (1, 0)
    } else if d == 2 {
        (1, 1)
    } else if d == 3 {
        (1, -1)
    } else if d == 4 {
        (0, -1)
    } else if d == 5 {
        (-1, 0)
    } else if d == 6 {
        (-1, -1)
    } else {
        (-1, 1)
    }
}

proof fn lemma_index_fits(x: int, y: int, w: int, h: int)
    requires
        0 <= x < w,
        0 <= y < h,
    ensures
        0 <= y * w <= y * w + x < w * h,
{
    assert(0 <= y * w <= y * w + x < w * h) by (nonlinear_arith)
        requires 0 <= x < w, 0 <= y < h;
}

/// A grid of letters in which words are sought.
pub struct WordSearch {
    pub chars: Vec<char>,
    pub width: usize,
    pub height: usize,
}

pub open spec fn letters_wf(chars: Seq<char>, width: usize, height: usize) -> bool {
    &&& width >= 1
    &&& height >= 1
    &&& chars.len() == width * height
    &&& width <= MAX_SIDE
    &&& height <= MAX_SIDE
}

/// Reads letter grid text; `None` where it is not a rectangular grid or a side
/// exceeds `MAX_SIDE`.
fn read_letters(input: &str) -> (r: Option<(Vec<char>, usize, usize)>)
    requires
        input@.len() < usize::MAX,
    ensures
        r matches Some((c, w, h)) ==> letters_wf(c@, w, h) && grid_shape(input@, w as int, h as int)
            && cells_match(c@, input@, w as int, h as int),
        r is None ==> !exists|w: int, h: int| grid_shape(input@, w, h) && w <= MAX_SIDE && h <= MAX_SIDE,
{
    match parse_grid(input) {
        Some((chars, width, height)) => {
            if width > MAX_SIDE || height > MAX_SIDE {
                proof {
                    assert forall|w: int, h: int| !(grid_shape(input@, w, h) && w <= MAX_SIDE && h <= MAX_SIDE) by {
                        if grid_shape(input@, w, h) {
                            crate::grid::lemma_shape_unique(input@, w, h, width as int, height as int);
                        }
                    }
                }
                return None;
            }
            Some((chars, width, height))
        },
        None => None,
    }
}

impl WordSearch {
    pub open spec fn wf(&self) -> bool {
        letters_wf(self.chars@, self.width, self.height)
    }

    pub open spec fn letter(&self, x: int, y: int) -> char {
        self.chars@[y * self.width + x]
    }

    pub open spec fn valid_spec(&self, x: int, y: int) -> bool {
        0 <= x < self.width && 0 <= y < self.height
    }

    /// `target` is spelled from `(x, y)` along direction `dir`.
    pub open spec fn spells(&self, x: int, y: int, dir: (int, int), target: Seq<char>) -> bool {
        forall|i: int| 0 <= i < target.len() ==> #[trigger] self.letter_ok(x, y, dir, target, i)
    }

    /// Letter `i` of `target` lies inside the grid at step `i` from `(x, y)`.
    pub open spec fn letter_ok(&self, x: int, y: int, dir: (int, int), target: Seq<char>, i: int) -> bool {
        self.valid_spec(x + dir.0 * i, y + dir.1 * i) && self.letter(x + dir.0 * i, y + dir.1 * i) == target[i]
    }

    /// Number of (cell, direction) pairs among the first `n`, cell-major,
    /// from which `target` is spelled.
    pub open spec fn count_spec(&self, target: Seq<char>, n: int) -> nat
        decreases n,
    {
        if n <= 0 {
            0
        } else {
            let k = n - 1;
            let cell = k / 8;
            self.count_spec(target, n - 1) + if self.spells(
                cell % (self.width as int),
                cell / (self.width as int),
                direction_spec(k % 8),
                target,
            ) {
                1nat
            } else {
                0nat
            }
        }
    }

    pub fn new(input: &str) -> (r: Option<Self>)
        requires
            input@.len() < usize::MAX,
        ensures
            r matches Some(s) ==> s.wf() && grid_shape(input@, s.width as int, s.height as int)
                && cells_match(s.chars@, input@, s.width as int, s.height as int),
            r is None ==> !exists|w: int, h: int| grid_shape(input@, w, h) && w <= MAX_SIDE && h <= MAX_SIDE,
    {
        match read_letters(input) {
            Some((chars, width, height)) => Some(WordSearch { chars, width, height }),
            None => None,
        }
    }

    pub fn directions() -> (r: [[i32; 2]; 8])
        ensures
            forall|d: int| 0 <= d < 8 ==> r[d][0] == direction_spec(d).0 && r[d][1] == direction_spec(d).1,
    {
        let r = [[0, 1], [1, 0], [1, 1], [1, -1], [0, -1], [-1, 0], [-1, -1], [-1, 1]];
        assert(r[0][0] == 0 && r[0][1] == 1);
        r
    }

    pub fn valid(&self, x: i32, y: i32) -> (r: bool)
        requires
            self.wf(),
        ensures
            r == self.valid_spec(x as int, y as int),
    {
        x >= 0 && x < self.width as i32 && y >= 0 && y < self.height as i32
    }

    /// Whether `target` is spelled from `(x, y)` along `direction`.
    pub fn search_from(&self, x: i32, y: i32, direction: [i32; 2], target: &[char]) -> (r: bool)
        requires
            self.wf(),
            -0x1000_0000 <= x <= 0x1000_0000,
            -0x1000_0000 <= y <= 0x1000_0000,
            -1 <= direction[0] <= 1,
            -1 <= direction[1] <= 1,
            target@.len() <= 0x1000_0000,
        ensures
            r == self.spells(x as int, y as int, (direction[0] as int, direction[1] as int), target@),
    {
        let ghost dir = (direction[0] as int, direction[1] as int);
        let mut i: usize = 0;
        while i < target.len()
            invariant
                self.wf(),
                i <= target@.len(),
                target@.len() <= 0x1000_0000,
                -0x1000_0000 <= x <= 0x1000_0000,
                -0x1000_0000 <= y <= 0x1000_0000,
                dir == (direction[0] as int, direction[1] as int),
                -1 <= direction[0] <= 1,
                -1 <= direction[1] <= 1,
                forall|j: int| 0 <= j < i ==> #[trigger] self.letter_ok(x as int, y as int, dir, target@, j),
            decreases target@.len() - i,
        {
            assert(-0x1000_0000 <= direction[0] * (i as int) <= 0x1000_0000) by (nonlinear_arith)
                requires -1 <= direction[0] <= 1, 0 <= i <= 0x1000_0000;
            assert(-0x1000_0000 <= direction[1] * (i as int) <= 0x1000_0000) by (nonlinear_arith)
                requires -1 <= direction[1] <= 1, 0 <= i <= 0x1000_0000;
            let cx = x + direction[0] * i as i32;
            let cy = y + direction[1] * i as i32;
            assert(cx == x + dir.0 * i && cy == y + dir.1 * i);
            if !self.valid(cx, cy) {
                assert(!self.letter_ok(x as int, y as int, dir, target@, i as int));
                return false;
            }
            let ux = cx as usize;
            let uy = cy as usize;
            assert(0 <= uy * self.width + ux < self.width * self.height) by (nonlinear_arith)
                requires 0 <= ux < self.width, 0 <= uy < self.height;
            let len = self.chars.len();
            proof {
                lemma_index_fits(ux as int, uy as int, self.width as int, self.height as int);
            }
            assert(uy * self.width + ux < len);
            if self.chars[uy * self.width + ux] != target[i] {
                assert(!self.letter_ok(x as int, y as int, dir, target@, i as int));
                return false;
            }
            i += 1;
        }
        assert(self.spells(x as int, y as int, dir, target@));
        true
    }

    /// Number of cells and directions from which `target` is spelled.
    pub fn count(&self, target: &[char]) -> (r: usize)
        requires
            self.wf(),
            target@.len() <= 0x1000_0000,
            self.chars@.len() * 8 < usize::MAX,
        ensures
            r == self.count_spec(target@, (self.chars@.len() * 8) as int),
    {
        let n = self.width * self.height * 8;
        let dirs = Self::directions();
        let mut count: usize = 0;
        let mut k: usize = 0;
        while k < n
            invariant
                self.wf(),
                n == self.chars@.len() * 8,
                n < usize::MAX,
                target@.len() <= 0x1000_0000,
                k <= n,
                count <= k,
                count == self.count_spec(target@, k as int),
                forall|d: int| 0 <= d < 8 ==> dirs[d][0] == direction_spec(d).0 && dirs[d][1] == direction_spec(d).1,
            decreases n - k,
        {
            let cell = k / 8;
            let x = cell % self.width;
            let y = cell / self.width;
            assert(y < self.height) by (nonlinear_arith)
                requires cell == k / 8, k < n, n == self.width * self.height * 8, y == cell / self.width, self.width >= 1;
            assert(x < self.width);
            let d = k % 8;
            assert(dirs[d as int][0] == direction_spec(d as int).0 && dirs[d as int][1] == direction_spec(d as int).1);
            if self.search_from(x as i32, y as i32, dirs[d], target) {
                count += 1;
            }
            k += 1;
        }
        count
    }
}

/// A grid of letters in which crossed `MAS` pairs are sought.
pub struct XMasSearch {
    pub chars: Vec<char>,
    pub width: usize,
    pub height: usize,
}

/// The four diagonal `M`, `A`, `S` spellings through a centre, as offsets.
pub open spec fn pattern_spec(p: int) -> ((int, int), (int, int), (int, int)) {
    if p == 0 {
        ((-1, -1), (0, 0), (1, 1))
    } else if p == 1 {
        ((1, -1), (0, 0), (-1, 1))
    } else if p == 2 {
        ((1, 1), (0, 0), (-1, -1))
    } else {
        ((-1, 1), (0, 0), (1, -1))
    }
}

impl XMasSearch {
    pub open spec fn wf(&self) -> bool {
        letters_wf(self.chars@, self.width, self.height)
    }

    pub open spec fn letter(&self, x: int, y: int) -> char {
        self.chars@[y * self.width + x]
    }

    /// Pattern `p` spells `MAS` around the centre `(x, y)`.
    pub open spec fn pattern_matches(&self, x: int, y: int, p: int) -> bool {
        let (a, b, c) = pattern_spec(p);
        &&& self.letter(x + a.0, y + a.1) == 'M'
        &&& self.letter(x + b.0, y + b.1) == 'A'
        &&& self.letter(x + c.0, y + c.1) == 'S'
    }

    pub open spec fn pattern_count(&self, x: int, y: int, n: int) -> int
        decreases n,
    {
        if n <= 0 {
            0
        } else {
            self.pattern_count(x, y, n - 1) + if self.pattern_matches(x, y, n - 1) {
                1int
            } else {
                0int
            }
        }
    }

    /// An `A` at `(x, y)` with two diagonal `MAS` spellings through it.
    pub open spec fn is_match_spec(&self, x: int, y: int) -> bool {
        self.letter(x, y) == 'A' && self.pattern_count(x, y, 4) >= 2
    }

    /// Number of inner cells, row after row among the first `n`, that match.
    pub open spec fn count_spec(&self, n: int) -> nat
        decreases n,
    {
        if n <= 0 {
            0
        } else {
            let k = n - 1;
            let iw = self.width - 2;
            self.count_spec(n - 1) + if self.is_match_spec(k % iw + 1, k / iw + 1) {
                1nat
            } else {
                0nat
            }
        }
    }

    pub fn new(input: &str) -> (r: Option<Self>)
        requires
            input@.len() < usize::MAX,
        ensures
            r matches Some(s) ==> s.wf() && grid_shape(input@, s.width as int, s.height as int)
                && cells_match(s.chars@, input@, s.width as int, s.height as int),
            r is None ==> !exists|w: int, h: int| grid_shape(input@, w, h) && w <= MAX_SIDE && h <= MAX_SIDE,
    {
        match read_letters(input) {
            Some((chars, width, height)) => Some(XMasSearch { chars, width, height }),
            None => None,
        }
    }

    pub fn at(&self, x: i32, y: i32) -> (r: char)
        requires
            self.wf(),
            0 <= x < self.width,
            0 <= y < self.height,
        ensures
            r == self.letter(x as int, y as int),
    {
        let ux = x as usize;
        let uy = y as usize;
        assert(0 <= uy * self.width + ux < self.width * self.height) by (nonlinear_arith)
            requires 0 <= ux < self.width, 0 <= uy < self.height;
        let len = self.chars.len();
        proof {
            lemma_index_fits(ux as int, uy as int, self.width as int, self.height as int);
        }
        assert(uy * self.width + ux < len);
        self.chars[uy * self.width + ux]
    }

    pub fn patterns() -> (r: [[[i32; 2]; 3]; 4])
        ensures
            forall|p: int|
                0 <= p < 4 ==> r[p][0][0] == pattern_spec(p).0.0 && r[p][0][1] == pattern_spec(p).0.1 && r[p][1][0]
                    == pattern_spec(p).1.0 && r[p][1][1] == pattern_spec(p).1.1 && r[p][2][0] == pattern_spec(p).2.0
                    && r[p][2][1] == pattern_spec(p).2.1,
    {
        [
            [[-1, -1], [0, 0], [1, 1]],
            [[1, -1], [0, 0], [-1, 1]],
            [[1, 1], [0, 0], [-1, -1]],
            [[-1, 1], [0, 0], [1, -1]],
        ]
    }

    /// Whether the cell `(x, y)`, away from the border, centres an X of `MAS`.
    pub fn is_match(&self, x: i32, y: i32) -> (r: bool)
        requires
            self.wf(),
            1 <= x < self.width - 1,
            1 <= y < self.height - 1,
        ensures
            r == self.is_match_spec(x as int, y as int),
    {
        if self.at(x, y) != 'A' {
            return false;
        }
        let pats = Self::patterns();
        let target = ['M', 'A', 'S'];
        let mut count: usize = 0;
        let mut p: usize = 0;
        while p < 4
            invariant
                self.wf(),
                1 <= x < self.width - 1,
                1 <= y < self.height - 1,
                p <= 4,
                count == self.pattern_count(x as int, y as int, p as int),
                count <= p,
                target[0] == 'M' && target[1] == 'A' && target[2] == 'S',
                forall|q: int|
                    0 <= q < 4 ==> pats[q][0][0] == pattern_spec(q).0.0 && pats[q][0][1] == pattern_spec(q).0.1
                        && pats[q][1][0] == pattern_spec(q).1.0 && pats[q][1][1] == pattern_spec(q).1.1
                        && pats[q][2][0] == pattern_spec(q).2.0 && pats[q][2][1] == pattern_spec(q).2.1,
            decreases 4 - p,
        {
            let pattern = pats[p];
            assert(pats[p as int][0][0] == pattern_spec(p as int).0.0 && pats[p as int][0][1] == pattern_spec(p as int).0.1
                && pats[p as int][1][0] == pattern_spec(p as int).1.0 && pats[p as int][1][1] == pattern_spec(p as int).1.1
                && pats[p as int][2][0] == pattern_spec(p as int).2.0 && pats[p as int][2][1] == pattern_spec(p as int).2.1);
            let mut j: usize = 0;
            let mut ok = true;
            while j < 3 && ok
                invariant
                    self.wf(),
                    1 <= x < self.width - 1,
                    1 <= y < self.height - 1,
                    j <= 3,
                    p < 4,
                    pattern == pats[p as int],
                    pattern[0][0] == pattern_spec(p as int).0.0 && pattern[0][1] == pattern_spec(p as int).0.1,
                    pattern[1][0] == pattern_spec(p as int).1.0 && pattern[1][1] == pattern_spec(p as int).1.1,
                    pattern[2][0] == pattern_spec(p as int).2.0 && pattern[2][1] == pattern_spec(p as int).2.1,
                    forall|j2: int, c: int| 0 <= j2 < 3 && 0 <= c < 2 ==> -1 <= #[trigger] pattern[j2][c] <= 1,
                    target[0] == 'M' && target[1] == 'A' && target[2] == 'S',
                    forall|q: int|
                        0 <= q < 4 ==> pats[q][0][0] == pattern_spec(q).0.0 && pats[q][0][1] == pattern_spec(q).0.1
                            && pats[q][1][0] == pattern_spec(q).1.0 && pats[q][1][1] == pattern_spec(q).1.1
                            && pats[q][2][0] == pattern_spec(q).2.0 && pats[q][2][1] == pattern_spec(q).2.1,
                    ok ==> forall|j2: int| 0 <= j2 < j ==> self.letter(x + pattern[j2][0], y + pattern[j2][1]) == target[j2],
                    !ok ==> !self.pattern_matches(x as int, y as int, p as int),
                decreases 3 - j + (if ok { 1int } else { 0int }),
            {
                let cx = x + pattern[j][0];
                let cy = y + pattern[j][1];
                if self.at(cx, cy) != target[j] {
                    ok = false;
                } else {
                    j += 1;
                }
            }
            if ok {
                assert(self.letter(x + pattern[0][0], y + pattern[0][1]) == target[0]);
                assert(self.letter(x + pattern[1][0], y + pattern[1][1]) == target[1]);
                assert(self.letter(x + pattern[2][0], y + pattern[2][1]) == target[2]);
                assert(self.pattern_matches(x as int, y as int, p as int));
                count += 1;
            }
            p += 1;
        }
        count >= 2
    }

    /// Number of inner cells that centre an X of `MAS`.
    pub fn count(&self) -> (r: usize)
        requires
            self.wf(),
        ensures
            self.width < 3 || self.height < 3 ==> r == 0,
            self.width >= 3 && self.height >= 3 ==> r == self.count_spec(((self.width - 2) * (self.height - 2)) as int),
    {
        if self.width < 3 || self.height < 3 {
            return 0;
        }
        let iw = self.width - 2;
        let len = self.chars.len();
        assert(iw * (self.height - 2) <= len) by (nonlinear_arith)
            requires iw == self.width - 2, self.width >= 3, self.height >= 3, len == self.width * self.height;
        let n = iw * (self.height - 2);
        let mut count: usize = 0;
        let mut k: usize = 0;
        while k < n
            invariant
                self.wf(),
                self.width >= 3,
                self.height >= 3,
                iw == self.width - 2,
                n == iw * (self.height - 2),
                k <= n,
                count <= k,
                count == self.count_spec(k as int),
            decreases n - k,
        {
            let x = k % iw + 1;
            let y = k / iw + 1;
            assert(k / iw < self.height - 2) by (nonlinear_arith)
                requires k < n, n == iw * (self.height - 2), iw >= 1;
            if self.is_match(x as i32, y as i32) {
                count += 1;
            }
            k += 1;
        }
        count
    }
}

} // verus!
