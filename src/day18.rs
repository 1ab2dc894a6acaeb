use vstd::prelude::*;
use crate::steps::{Field, Cell};
use crate::day12::{cell_of, dir_offset, lemma_index_roundtrip};

verus! {

/// A square memory space whose cells become corrupted one by one.
pub struct MemorySpace {
    pub field: Field,
    pub size: usize,
}

impl MemorySpace {
    pub open spec fn wf(&self) -> bool {
        &&& self.field.wf()
        &&& self.field.width == self.size
        &&& self.field.height == self.size
    }

    /// An empty memory space of `size` by `size` cells; `None` for a size of
    /// zero or one too large to index.
    pub fn new(size: usize) -> (r: Option<Self>)
        ensures
            r is Some <==> 1 <= size && size * size < isize::MAX,
            r matches Some(m) ==> m.wf() && m.size == size && forall|k: int| 0 <= k < size * size ==> #[trigger] m.field.open@[k],
    {
        if size == 0 {
            return None;
        }
        let n = match size.checked_mul(size) {
            Some(n) => n,
            None => {
                return None;
            },
        };
        if n >= isize::MAX as usize {
            return None;
        }
        let mut open: Vec<bool> = Vec::new();
        while open.len() < n
            invariant
                open@.len() <= n,
                forall|k: int| 0 <= k < open@.len() ==> #[trigger] open@[k],
            decreases n - open@.len(),
        {
            open.push(true);
        }
        Some(MemorySpace { field: Field { open, width: size, height: size }, size })
    }

    /// `'#'` for a corrupted cell, `'.'` for a safe one, `None` outside.
    pub fn tile(&self, pos: (isize, isize)) -> (r: Option<char>)
        requires
            self.wf(),
        ensures
            !self.field.in_bounds((pos.0 as int, pos.1 as int)) ==> r is None,
            self.field.in_bounds((pos.0 as int, pos.1 as int)) ==> r == Some(
                if self.field.open@[self.field.index((pos.0 as int, pos.1 as int))] {
                    '.'
                } else {
                    '#'
                },
            ),
    {
        let (x, y) = pos;
        if x < 0 || y < 0 || x as usize >= self.size || y as usize >= self.size {
            return None;
        }
        proof {
            lemma_index_roundtrip(self.size as int, self.size as int, (x as int, y as int));
        }
        if self.field.open[y as usize * self.size + x as usize] {
            Some('.')
        } else {
            Some('#')
        }
    }

    /// Corrupts the cell at `pos`; `false`, with nothing changed, outside.
    pub fn tile_mut(&mut self, pos: (isize, isize)) -> (r: bool)
        requires
            old(self).wf(),
        ensures
            final(self).wf(),
            final(self).size == old(self).size,
            r == old(self).field.in_bounds((pos.0 as int, pos.1 as int)),
            r ==> final(self).field.open@ == old(self).field.open@.update(
                old(self).field.index((pos.0 as int, pos.1 as int)),
                false,
            ),
            !r ==> final(self).field.open@ == old(self).field.open@,
    {
        let (x, y) = pos;
        if x < 0 || y < 0 || x as usize >= self.size || y as usize >= self.size {
            return false;
        }
        proof {
            lemma_index_roundtrip(self.size as int, self.size as int, (x as int, y as int));
        }
        let k = y as usize * self.size + x as usize;
        self.field.open.set(k, false);
        true
    }

    /// Fewest steps from the top left to the bottom right corner; `None`
    /// where no walk of at most `usize::MAX` steps joins them.
    pub fn shortest_path(&self) -> (r: Option<usize>)
        requires
            self.wf(),
        ensures
            r matches Some(c) ==> self.field.is_least_steps((0, 0), (self.size - 1, self.size - 1), c as int),
            r is None ==> forall|p: Seq<Cell>|
                #[trigger] self.field.is_route(p, (0, 0), (self.size - 1, self.size - 1)) ==> p.len() - 1 > usize::MAX,
    {
        let dist = self.field.distances((0, 0));
        let last = self.size - 1;
        proof {
            lemma_index_roundtrip(self.size as int, self.size as int, (last as int, last as int));
        }
        let k = last * self.size + last;
        assert(cell_of(k as int, self.size as int) == (last as int, last as int));
        dist[k]
    }
}

/// Cells of a `size` by `size` space left safe once the first `m` positions
/// of `falling` are corrupted.
pub open spec fn safe_after(size: int, falling: Seq<(isize, isize)>, m: int) -> Seq<bool> {
    Seq::new(
        (size * size) as nat,
        |k: int|
            !exists|t: int|
                0 <= t < m && 0 <= #[trigger] falling[t].0 < size && 0 <= falling[t].1 < size && falling[t].1 * size
                    + falling[t].0 == k,
    )
}

/// Some walk joins the corners of a space with these safe cells.
pub open spec fn corners_joined(size: int, open: Seq<bool>) -> bool {
    forall|f: Field|
        f.wf() && f.width == size && f.height == size && #[trigger] f.open@ == open ==> exists|p: Seq<Cell>|
            #[trigger] f.is_route(p, (0, 0), (size - 1, size - 1)) && p.len() - 1 <= usize::MAX
}

/// The first position in `falling` after whose corruption no walk joins the
/// corners of a `size` by `size` space; `None` where every prefix leaves one,
/// or where `size` is zero or too large.
pub fn first_cut(size: usize, falling: &[(isize, isize)]) -> (r: Option<usize>)
    ensures
        r matches Some(i) ==> i < falling@.len() && !corners_joined(size as int, safe_after(size as int, falling@, i + 1))
            && forall|j: int| 0 <= j <= i ==> #[trigger] corners_joined(size as int, safe_after(size as int, falling@, j)),
        r is None ==> !(1 <= size && size * size < isize::MAX) || forall|j: int|
            0 <= j <= falling@.len() ==> #[trigger] corners_joined(size as int, safe_after(size as int, falling@, j)),
{
    let mut space = match MemorySpace::new(size) {
        Some(m) => m,
        None => {
            return None;
        },
    };
    let ghost n = size * size;
    proof {
        assert(space.field.open@ =~= safe_after(size as int, falling@, 0));
        let p = lemma_open_route(&space);
        lemma_joined(&space, p);
    }
    let mut i: usize = 0;
    while i < falling.len()
        invariant
            space.wf(),
            space.size == size,
            i <= falling@.len(),
            space.field.open@ == safe_after(size as int, falling@, i as int),
            forall|j: int| 0 <= j <= i ==> #[trigger] corners_joined(size as int, safe_after(size as int, falling@, j)),
        decreases falling@.len() - i,
    {
        let ghost before = space.field.open@;
        let pos = falling[i];
        let inside = space.tile_mut(pos);
        proof {
            let w = size as int;
            assert(pos == falling@[i as int]);
            assert forall|k: int| 0 <= k < w * w implies #[trigger] space.field.open@[k] == safe_after(w, falling@, i + 1)[k] by {
                let hit = exists|t: int| 0 <= t < i + 1 && 0 <= #[trigger] falling@[t].0 < w && 0 <= falling@[t].1 < w && falling@[t].1 * w + falling@[t].0 == k;
                let hit0 = exists|t: int| 0 <= t < i && 0 <= #[trigger] falling@[t].0 < w && 0 <= falling@[t].1 < w && falling@[t].1 * w + falling@[t].0 == k;
                assert(before[k] == !hit0);
                if inside && space.field.index((pos.0 as int, pos.1 as int)) == k {
                    assert(0 <= falling@[i as int].0 < w && 0 <= falling@[i as int].1 < w && falling@[i as int].1 * w + falling@[i as int].0 == k);
                    assert(hit);
                } else {
                    assert(before.len() == w * w);
                    if inside {
                        let idx = space.field.index((pos.0 as int, pos.1 as int));
                        lemma_index_roundtrip(w, w, (pos.0 as int, pos.1 as int));
                        assert(space.field.open@ == before.update(idx, false));
                        assert(idx != k);
                        assert(before.update(idx, false)[k] == before[k]);
                    } else {
                        assert(space.field.open@ == before);
                    }
                    assert(space.field.open@[k] == before[k]);
                    if hit {
                        let t = choose|t: int| 0 <= t < i + 1 && 0 <= #[trigger] falling@[t].0 < w && 0 <= falling@[t].1 < w && falling@[t].1 * w + falling@[t].0 == k;
                        if t == i as int {
                            assert(inside);
                        }
                        assert(hit0);
                    }
                    if hit0 {
                        let t = choose|t: int| 0 <= t < i && 0 <= #[trigger] falling@[t].0 < w && 0 <= falling@[t].1 < w && falling@[t].1 * w + falling@[t].0 == k;
                        assert(hit);
                    }
                }
            }
            assert(space.field.open@ =~= safe_after(w, falling@, i + 1));
        }
        let found = space.shortest_path();
        if found.is_none() {
            proof {
                assert(!corners_joined(size as int, space.field.open@)) by {
                    if corners_joined(size as int, space.field.open@) {
                        assert(space.field.wf() && space.field.width == size && space.field.height == size);
                    }
                }
            }
            return Some(i);
        }
        proof {
            let c = found->0;
            let p = choose|p: Seq<Cell>| #[trigger] space.field.is_route(p, (0, 0), (size - 1, size - 1)) && p.len() - 1 == c;
            lemma_joined(&space, p);
        }
        i += 1;
    }
    None
}

/// A walk in the space is a walk in every field with the same cells.
proof fn lemma_joined(space: &MemorySpace, p: Seq<Cell>)
    requires
        space.wf(),
        space.field.is_route(p, (0, 0), (space.size - 1, space.size - 1)),
        p.len() - 1 <= usize::MAX,
    ensures
        corners_joined(space.size as int, space.field.open@),
{
    let s = space.size as int;
    assert forall|f: Field| f.wf() && f.width == s && f.height == s && #[trigger] f.open@ == space.field.open@ implies exists|q: Seq<Cell>|
        #[trigger] f.is_route(q, (0, 0), (s - 1, s - 1)) && q.len() - 1 <= usize::MAX by {
        assert forall|i: int| 0 <= i < p.len() - 1 implies #[trigger] f.is_step(p[i], p[i + 1]) by {
            assert(space.field.is_step(p[i], p[i + 1]));
        }
        assert(f.is_route(p, (0, 0), (s - 1, s - 1)));
    }
}

/// In a space with every cell safe, the top row and the right column join
/// the corners.
proof fn lemma_open_route(space: &MemorySpace) -> (p: Seq<Cell>)
    requires
        space.wf(),
        forall|k: int| 0 <= k < space.size * space.size ==> #[trigger] space.field.open@[k],
    ensures
        space.field.is_route(p, (0, 0), (space.size - 1, space.size - 1)),
        p.len() - 1 <= usize::MAX,
{
    let s = space.size as int;
    let p = Seq::new((2 * s - 1) as nat, |i: int| if i < s { (i, 0int) } else { (s - 1, i - s + 1) });
    assert forall|i: int| 0 <= i < p.len() - 1 implies #[trigger] space.field.is_step(p[i], p[i + 1]) by {
        lemma_index_roundtrip(s, s, p[i + 1]);
        if i + 1 < s {
            assert(dir_offset(1) == (p[i + 1].0 - p[i].0, p[i + 1].1 - p[i].1));
        } else {
            assert(dir_offset(2) == (p[i + 1].0 - p[i].0, p[i + 1].1 - p[i].1));
        }
    }
    assert(space.size <= space.field.open@.len()) by (nonlinear_arith)
        requires space.field.open@.len() == space.size * space.size, space.size >= 1;
    p
}

} // verus!
