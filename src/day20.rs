use vstd::prelude::*;
use crate::grid::{parse_grid, grid_shape, cells_match};
use crate::steps::{Field, Cell};
use crate::day12::{cell_of, lemma_cell_roundtrip, lemma_index_roundtrip};
use crate::day16::positions_of;

verus! {

/// A race track: `#` is a wall, anything else can be driven on.
pub struct Track {
    pub tiles: Vec<char>,
    pub width: usize,
    pub height: usize,
}

impl Track {
    pub open spec fn wf(&self) -> bool {
        &&& self.width >= 1
        &&& self.height >= 1
        &&& self.tiles@.len() == self.width * self.height
        &&& self.tiles@.len() < isize::MAX
    }

    pub open spec fn in_bounds(&self, x: int, y: int) -> bool {
        0 <= x < self.width && 0 <= y < self.height
    }

    pub open spec fn tile_spec(&self, x: int, y: int) -> Option<char> {
        if self.in_bounds(x, y) {
            Some(self.tiles@[y * self.width + x])
        } else {
            None
        }
    }

    /// Cells that can be entered: no wall, or the one wall `skip` passes through.
    pub open spec fn passable(&self, skip: Option<(isize, isize)>) -> Seq<bool> {
        Seq::new(
            self.tiles@.len(),
            |k: int|
                self.tiles@[k] != '#' || (skip matches Some(s) && self.in_bounds(s.0 as int, s.1 as int)
                    && s.1 * self.width + s.0 == k),
        )
    }

    pub fn new(input: &str) -> (r: Option<Self>)
        requires
            input@.len() < isize::MAX,
        ensures
            r is Some <==> exists|w: int, h: int| grid_shape(input@, w, h),
            r matches Some(t) ==> t.wf() && grid_shape(input@, t.width as int, t.height as int)
                && cells_match(t.tiles@, input@, t.width as int, t.height as int),
    {
        match parse_grid(input) {
            Some((tiles, width, height)) => {
                assert(tiles@.len() <= input@.len()) by (nonlinear_arith)
                    requires
                        tiles@.len() == width * height,
                        grid_shape(input@, width as int, height as int),
                ;
                Some(Track { tiles, width, height })
            },
            None => None,
        }
    }

    pub fn tile(&self, pos: (isize, isize)) -> (r: Option<char>)
        requires
            self.wf(),
        ensures
            r == self.tile_spec(pos.0 as int, pos.1 as int),
    {
        let (x, y) = pos;
        if x < 0 || y < 0 || x as usize >= self.width || y as usize >= self.height {
            return None;
        }
        proof {
            lemma_index_roundtrip(self.width as int, self.height as int, (x as int, y as int));
        }
        Some(self.tiles[y as usize * self.width + x as usize])
    }

    /// Every position holding `c`, row after row.
    pub fn find(&self, c: char) -> (r: Vec<(isize, isize)>)
        requires
            self.wf(),
        ensures
            r@ == positions_of(self.tiles@, self.width as int, c, self.tiles@.len() as int),
            forall|i: int| 0 <= i < r@.len() ==> self.in_bounds((#[trigger] r@[i]).0 as int, r@[i].1 as int)
                && self.tile_spec(r@[i].0 as int, r@[i].1 as int) == Some(c),
    {
        let mut out: Vec<(isize, isize)> = Vec::new();
        let mut k: usize = 0;
        let ghost wi = self.width as int;
        let ghost hi = self.height as int;
        while k < self.tiles.len()
            invariant
                self.wf(),
                wi == self.width,
                hi == self.height,
                k <= self.tiles@.len(),
                out@ == positions_of(self.tiles@, wi, c, k as int),
                forall|i: int| 0 <= i < out@.len() ==> self.in_bounds((#[trigger] out@[i]).0 as int, out@[i].1 as int)
                    && self.tile_spec(out@[i].0 as int, out@[i].1 as int) == Some(c),
            decreases self.tiles@.len() - k,
        {
            if self.tiles[k] == c {
                let x = k % self.width;
                let y = k / self.width;
                proof {
                    lemma_cell_roundtrip(wi, hi, k as int);
                }
                let ghost before = out@;
                out.push((x as isize, y as isize));
                proof {
                    assert forall|i: int| 0 <= i < out@.len() implies self.in_bounds((#[trigger] out@[i]).0 as int, out@[i].1 as int)
                        && self.tile_spec(out@[i].0 as int, out@[i].1 as int) == Some(c) by {
                        if i < before.len() {
                            assert(out@[i] == before[i]);
                        }
                    }
                }
            }
            k += 1;
        }
        out
    }

    /// The cells that can be entered, as a field.
    fn field(&self, skip: Option<(isize, isize)>) -> (f: Field)
        requires
            self.wf(),
        ensures
            f.wf(),
            f.width == self.width,
            f.height == self.height,
            f.open@ == self.passable(skip),
    {
        let ghost wi = self.width as int;
        let skip_index: Option<usize> = match skip {
            Some((sx, sy)) => {
                if sx >= 0 && sy >= 0 && (sx as usize) < self.width && (sy as usize) < self.height {
                    proof {
                        lemma_index_roundtrip(wi, self.height as int, (sx as int, sy as int));
                    }
                    Some(sy as usize * self.width + sx as usize)
                } else {
                    None
                }
            },
            None => None,
        };
        let mut open: Vec<bool> = Vec::new();
        let mut k: usize = 0;
        while k < self.tiles.len()
            invariant
                self.wf(),
                wi == self.width,
                k <= self.tiles@.len(),
                open@.len() == k,
                skip_index matches Some(si) ==> skip matches Some(s) && self.in_bounds(s.0 as int, s.1 as int) && s.1 * wi + s.0 == si,
                skip_index is None ==> !(skip matches Some(s) && self.in_bounds(s.0 as int, s.1 as int)),
                forall|j: int| 0 <= j < k ==> #[trigger] open@[j] == self.passable(skip)[j],
            decreases self.tiles@.len() - k,
        {
            let is_skip = match skip_index {
                Some(si) => si == k,
                None => false,
            };
            open.push(self.tiles[k] != '#' || is_skip);
            k += 1;
        }
        assert(open@ =~= self.passable(skip));
        Field { open, width: self.width, height: self.height }
    }

    /// Fewest steps from `start` to `end` where the track may also pass
    /// through the wall at `skip`; `None` where no walk of at most
    /// `usize::MAX` steps joins them.
    pub fn shortest_path(&self, start: (isize, isize), end: (isize, isize), skip: Option<(isize, isize)>) -> (r: Option<usize>)
        requires
            self.wf(),
            self.in_bounds(start.0 as int, start.1 as int),
        ensures
            forall|f: Field|
                f.width == self.width && f.height == self.height && #[trigger] f.open@ == self.passable(skip) ==> {
                    &&& (r matches Some(c) ==> f.is_least_steps(
                        (start.0 as int, start.1 as int),
                        (end.0 as int, end.1 as int),
                        c as int,
                    ))
                    &&& (r is None ==> forall|p: Seq<Cell>|
                        #[trigger] f.is_route(p, (start.0 as int, start.1 as int), (end.0 as int, end.1 as int))
                            ==> p.len() - 1 > usize::MAX)
                },
    {
        let field = self.field(skip);
        let dist = field.distances((start.0 as usize, start.1 as usize));
        let ghost s = (start.0 as int, start.1 as int);
        let ghost e = (end.0 as int, end.1 as int);
        let (ex, ey) = end;
        if ex < 0 || ey < 0 || ex as usize >= self.width || ey as usize >= self.height {
            proof {
                assert forall|f: Field| f.width == self.width && f.height == self.height && #[trigger] f.open@ == self.passable(skip) implies
                    forall|p: Seq<Cell>| #[trigger] f.is_route(p, s, e) ==> p.len() - 1 > usize::MAX by {
                    assert forall|p: Seq<Cell>| #[trigger] f.is_route(p, s, e) implies p.len() - 1 > usize::MAX by {
                        if p.len() > 1 {
                            let i0 = p.len() - 2;
                            assert(f.is_step(p[i0], p[i0 + 1]));
                        }
                    }
                }
            }
            return None;
        }
        proof {
            lemma_index_roundtrip(self.width as int, self.height as int, e);
        }
        let k = ey as usize * self.width + ex as usize;
        let r = dist[k];
        proof {
            assert(cell_of(k as int, self.width as int) == e);
            assert forall|f: Field| f.width == self.width && f.height == self.height && #[trigger] f.open@ == self.passable(skip) implies {
                &&& (r matches Some(c) ==> f.is_least_steps(s, e, c as int))
                &&& (r is None ==> forall|p: Seq<Cell>| #[trigger] f.is_route(p, s, e) ==> p.len() - 1 > usize::MAX)
            } by {
                lemma_same_field(&field, &f, s, e);
                if r is None {
                    assert forall|p: Seq<Cell>| #[trigger] f.is_route(p, s, e) implies p.len() - 1 > usize::MAX by {
                        assert(field.is_route(p, s, e));
                    }
                }
            }
        }
        r
    }
}

/// Fields with the same cells have the same walks.
pub proof fn lemma_same_field(a: &Field, b: &Field, s: Cell, e: Cell)
    requires
        a.width == b.width,
        a.height == b.height,
        a.open@ == b.open@,
    ensures
        forall|p: Seq<Cell>| #[trigger] a.is_route(p, s, e) <==> b.is_route(p, s, e),
        forall|c: int| a.is_least_steps(s, e, c) <==> b.is_least_steps(s, e, c),
{
    assert forall|p: Seq<Cell>| #[trigger] a.is_route(p, s, e) <==> b.is_route(p, s, e) by {
        if a.is_route(p, s, e) {
            assert forall|i: int| 0 <= i < p.len() - 1 implies #[trigger] b.is_step(p[i], p[i + 1]) by {
                assert(a.is_step(p[i], p[i + 1]));
            }
        }
        if b.is_route(p, s, e) {
            assert forall|i: int| 0 <= i < p.len() - 1 implies #[trigger] a.is_step(p[i], p[i + 1]) by {
                assert(b.is_step(p[i], p[i + 1]));
            }
        }
    }
    assert forall|c: int| a.is_least_steps(s, e, c) <==> b.is_least_steps(s, e, c) by {
        if a.is_least_steps(s, e, c) {
            let p = choose|p: Seq<Cell>| #[trigger] a.is_route(p, s, e) && p.len() - 1 == c;
            assert(b.is_route(p, s, e));
            assert forall|q: Seq<Cell>| #[trigger] b.is_route(q, s, e) implies q.len() - 1 >= c by {
                assert(a.is_route(q, s, e));
            }
        }
        if b.is_least_steps(s, e, c) {
            let p = choose|p: Seq<Cell>| #[trigger] b.is_route(p, s, e) && p.len() - 1 == c;
            assert(a.is_route(p, s, e));
            assert forall|q: Seq<Cell>| #[trigger] a.is_route(q, s, e) implies q.len() - 1 >= c by {
                assert(b.is_route(q, s, e));
            }
        }
    }
}

} // verus!
