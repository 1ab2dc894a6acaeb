use vstd::prelude::*;
use crate::day12::{dir_offset, offset, cell_of, lemma_cell_roundtrip, lemma_index_roundtrip};
use crate::day16::{dist_measure, dist_weight};

verus! {

/// A grid of cells of which some can be entered; moves go between the four
/// neighbours at cost one.
pub struct Field {
    pub open: Vec<bool>,
    pub width: usize,
    pub height: usize,
}

pub type Cell = (int, int);

impl Field {
    pub open spec fn wf(&self) -> bool {
        &&& self.width >= 1
        &&& self.height >= 1
        &&& self.open@.len() == self.width * self.height
        &&& self.open@.len() < isize::MAX
    }

    pub open spec fn in_bounds(&self, c: Cell) -> bool {
        0 <= c.0 < self.width && 0 <= c.1 < self.height
    }

    pub open spec fn index(&self, c: Cell) -> int {
        c.1 * self.width + c.0
    }

    pub open spec fn enterable(&self, c: Cell) -> bool {
        self.in_bounds(c) && self.open@[self.index(c)]
    }

    /// `b` is a neighbour of `a` that can be entered.
    pub open spec fn is_step(&self, a: Cell, b: Cell) -> bool {
        &&& exists|i: int| 0 <= i < 4 && #[trigger] dir_offset(i) == (b.0 - a.0, b.1 - a.1)
        &&& self.enterable(b)
    }

    /// A walk: a start inside the grid, then steps into enterable neighbours.
    pub open spec fn is_walk(&self, p: Seq<Cell>) -> bool {
        &&& p.len() >= 1
        &&& self.in_bounds(p[0])
        &&& forall|i: int| 0 <= i < p.len() - 1 ==> #[trigger] self.is_step(p[i], p[i + 1])
    }

    pub open spec fn is_route(&self, p: Seq<Cell>, start: Cell, end: Cell) -> bool {
        self.is_walk(p) && p[0] == start && p.last() == end
    }

    /// `c` is the fewest steps of a walk from `start` to `end`.
    pub open spec fn is_least_steps(&self, start: Cell, end: Cell, c: int) -> bool {
        &&& exists|p: Seq<Cell>| #[trigger] self.is_route(p, start, end) && p.len() - 1 == c
        &&& forall|p: Seq<Cell>| #[trigger] self.is_route(p, start, end) ==> p.len() - 1 >= c
    }

    pub open spec fn least_steps(&self, start: Cell, end: Cell) -> Option<int> {
        if exists|c: int| self.is_least_steps(start, end, c) {
            Some(choose|c: int| self.is_least_steps(start, end, c))
        } else {
            None
        }
    }

    /// Every move out of cell `k` is relaxed against the table.
    pub open spec fn settled(&self, dist: Seq<Option<usize>>, k: int) -> bool {
        forall|t: Cell|
            #[trigger] self.is_step(cell_of(k, self.width as int), t) && dist[k]->0 + 1 <= usize::MAX ==> {
                &&& dist[self.index(t)] is Some
                &&& dist[self.index(t)]->0 <= dist[k]->0 + 1
            }
    }

    pub open spec fn sound(&self, dist: Seq<Option<usize>>, src: Cell) -> bool {
        forall|k: int|
            0 <= k < dist.len() && #[trigger] dist[k] is Some ==> exists|p: Seq<Cell>|
                #[trigger] self.is_walk(p) && p[0] == src && p.last() == cell_of(k, self.width as int) && p.len() - 1
                    == dist[k]->0
    }

    pub open spec fn frontier_ok(&self, dist: Seq<Option<usize>>, fr: Seq<(usize, usize)>) -> bool {
        forall|j: int|
            0 <= j < fr.len() ==> {
                &&& (#[trigger] fr[j]).1 < dist.len()
                &&& dist[fr[j].1 as int] is Some
                &&& dist[fr[j].1 as int]->0 <= fr[j].0
            }
    }

    pub open spec fn covered(&self, dist: Seq<Option<usize>>, fr: Seq<(usize, usize)>) -> bool {
        forall|k: int|
            0 <= k < dist.len() && #[trigger] dist[k] is Some ==> fr.contains((dist[k]->0, k as usize)) || self.settled(
                dist,
                k,
            )
    }
}

proof fn lemma_walk_push(f: &Field, p: Seq<Cell>, t: Cell)
    requires
        f.is_walk(p),
        f.is_step(p.last(), t),
    ensures
        f.is_walk(p.push(t)),
        p.push(t)[0] == p[0],
        p.push(t).last() == t,
{
    let q = p.push(t);
    assert forall|i: int| 0 <= i < q.len() - 1 implies #[trigger] f.is_step(q[i], q[i + 1]) by {
        if i < p.len() - 1 {
            assert(f.is_step(p[i], p[i + 1]));
        }
    }
}

proof fn lemma_weight_update(s: Seq<Option<usize>>, i: int, v: Option<usize>)
    requires
        0 <= i < s.len(),
    ensures
        dist_weight(s.update(i, v)) + dist_measure(s[i]) == dist_weight(s) + dist_measure(v),
    decreases s.len(),
{
    if i == s.len() - 1 {
        assert(s.update(i, v).drop_last() =~= s.drop_last());
    } else {
        assert(s.update(i, v).drop_last() =~= s.drop_last().update(i, v));
        lemma_weight_update(s.drop_last(), i, v);
    }
}

proof fn lemma_contains_remove(s: Seq<(usize, usize)>, j: int, a: (usize, usize))
    requires
        0 <= j < s.len(),
        s.contains(a),
        s[j] != a,
    ensures
        s.remove(j).contains(a),
{
    let i = choose|i: int| 0 <= i < s.len() && s[i] == a;
    if i < j {
        assert(s.remove(j)[i] == a);
    } else {
        assert(s.remove(j)[i - 1] == a);
    }
}

fn min_index(fr: &Vec<(usize, usize)>) -> (j: usize)
    requires
        fr@.len() > 0,
    ensures
        j < fr@.len(),
        forall|i: int| 0 <= i < fr@.len() ==> fr@[j as int].0 <= (#[trigger] fr@[i]).0,
{
    let mut j: usize = 0;
    let mut i: usize = 1;
    while i < fr.len()
        invariant
            0 <= j < i <= fr@.len(),
            forall|i2: int| 0 <= i2 < i ==> fr@[j as int].0 <= (#[trigger] fr@[i2]).0,
        decreases fr@.len() - i,
    {
        if fr[i].0 < fr[j].0 {
            j = i;
        }
        i += 1;
    }
    j
}

impl Field {
    proof fn lemma_settled_mono(&self, a: Seq<Option<usize>>, b: Seq<Option<usize>>, k: int)
        requires
            self.wf(),
            self.settled(a, k),
            a.len() == b.len(),
            a.len() == self.open@.len(),
            0 <= k < a.len(),
            b[k] == a[k],
            forall|i: int| 0 <= i < a.len() && #[trigger] a[i] is Some ==> b[i] is Some && b[i]->0 <= a[i]->0,
        ensures
            self.settled(b, k),
    {
        assert forall|t: Cell|
            #[trigger] self.is_step(cell_of(k, self.width as int), t) && b[k]->0 + 1 <= usize::MAX implies {
                &&& b[self.index(t)] is Some
                &&& b[self.index(t)]->0 <= b[k]->0 + 1
            } by {
            lemma_index_roundtrip(self.width as int, self.height as int, t);
            assert(a[self.index(t)] is Some);
        }
    }

    /// Relaxes the moves out of cell `k`, whose table entry is `c`.
    fn relax_from(&self, dist: &mut Vec<Option<usize>>, frontier: &mut Vec<(usize, usize)>, k: usize, c: usize, Ghost(src): Ghost<Cell>)
        requires
            self.wf(),
            old(dist)@.len() == self.open@.len(),
            k < old(dist)@.len(),
            old(dist)@[k as int] == Some(c),
            self.sound(old(dist)@, src),
            self.frontier_ok(old(dist)@, old(frontier)@),
        ensures
            final(dist)@.len() == old(dist)@.len(),
            final(dist)@[k as int] == Some(c),
            forall|i: int|
                0 <= i < old(dist)@.len() && #[trigger] old(dist)@[i] is Some ==> final(dist)@[i] is Some
                    && final(dist)@[i]->0 <= old(dist)@[i]->0,
            forall|i: int|
                0 <= i < old(dist)@.len() && #[trigger] final(dist)@[i] != old(dist)@[i]
                    ==> final(frontier)@.contains((final(dist)@[i]->0, i as usize)),
            final(frontier)@.len() >= old(frontier)@.len(),
            forall|j: int| 0 <= j < old(frontier)@.len() ==> #[trigger] final(frontier)@[j] == old(frontier)@[j],
            self.sound(final(dist)@, src),
            self.frontier_ok(final(dist)@, final(frontier)@),
            self.settled(final(dist)@, k as int),
            dist_weight(final(dist)@) < dist_weight(old(dist)@) || (final(dist)@ == old(dist)@
                && final(frontier)@ == old(frontier)@),
    {
        let ghost wi = self.width as int;
        let ghost hi = self.height as int;
        proof {
            lemma_cell_roundtrip(wi, hi, k as int);
        }
        let ghost sk = cell_of(k as int, wi);
        let x = k % self.width;
        let y = k / self.width;
        let ghost d0 = dist@;
        let ghost f0 = frontier@;
        assert(self.width <= self.open@.len() && self.height <= self.open@.len()) by (nonlinear_arith)
            requires self.open@.len() == self.width * self.height, self.width >= 1, self.height >= 1;
        let mut i: usize = 0;
        while i < 4
            invariant
                self.wf(),
                wi == self.width,
                hi == self.height,
                i <= 4,
                sk == cell_of(k as int, wi),
                sk == (x as int, y as int),
                0 <= x < self.width,
                0 <= y < self.height,
                self.width <= self.open@.len(),
                self.height <= self.open@.len(),
                dist@.len() == d0.len(),
                d0.len() == self.open@.len(),
                k < d0.len(),
                d0[k as int] == Some(c),
                dist@[k as int] == Some(c),
                self.sound(dist@, src),
                self.frontier_ok(dist@, frontier@),
                forall|i2: int|
                    0 <= i2 < d0.len() && #[trigger] d0[i2] is Some ==> dist@[i2] is Some && dist@[i2]->0 <= d0[i2]->0,
                forall|i2: int|
                    0 <= i2 < d0.len() && #[trigger] dist@[i2] != d0[i2] ==> frontier@.contains((dist@[i2]->0, i2 as usize)),
                frontier@.len() >= f0.len(),
                forall|j: int| 0 <= j < f0.len() ==> #[trigger] frontier@[j] == f0[j],
                forall|t: Cell|
                    #[trigger] self.is_step(sk, t) && (exists|d: int| 0 <= d < i && dir_offset(d) == (t.0 - sk.0, t.1 - sk.1))
                        && c + 1 <= usize::MAX ==> {
                        &&& dist@[self.index(t)] is Some
                        &&& dist@[self.index(t)]->0 <= c + 1
                    },
                dist_weight(dist@) < dist_weight(d0) || (dist@ == d0 && frontier@ == f0),
            decreases 4 - i,
        {
            let ghost dcur = dist@;
            let (dx, dy) = offset(i);
            let nx = x as isize + dx;
            let ny = y as isize + dy;
            let ghost t: Cell = (nx as int, ny as int);
            let inside = nx >= 0 && ny >= 0 && (nx as usize) < self.width && (ny as usize) < self.height;
            if inside && c < usize::MAX {
                let ux = nx as usize;
                let uy = ny as usize;
                proof {
                    lemma_index_roundtrip(wi, hi, t);
                }
                let nk = uy * self.width + ux;
                if self.open[nk] {
                    assert(self.is_step(sk, t));
                    let nc = c + 1;
                    let better = match dist[nk] {
                        Some(old_cost) => nc < old_cost,
                        None => true,
                    };
                    if better {
                        let ghost before = dist@;
                        let ghost fbefore = frontier@;
                        proof {
                            let p = choose|p: Seq<Cell>|
                                #[trigger] self.is_walk(p) && p[0] == src && p.last() == cell_of(k as int, wi) && p.len() - 1
                                    == before[k as int]->0;
                            lemma_walk_push(self, p, t);
                            lemma_weight_update(before, nk as int, Some(nc));
                        }
                        dist.set(nk, Some(nc));
                        frontier.push((nc, nk));
                        proof {
                            assert(frontier@[frontier@.len() - 1] == (nc, nk));
                            assert(nk as int != k as int);
                            assert forall|i2: int|
                                0 <= i2 < d0.len() && #[trigger] dist@[i2] != d0[i2] implies frontier@.contains((dist@[i2]->0, i2 as usize)) by {
                                if i2 != nk {
                                    assert(fbefore.contains((before[i2]->0, i2 as usize)));
                                    let j = choose|j: int| 0 <= j < fbefore.len() && fbefore[j] == (before[i2]->0, i2 as usize);
                                    assert(frontier@[j] == fbefore[j]);
                                }
                            }
                            assert forall|k2: int|
                                0 <= k2 < dist@.len() && #[trigger] dist@[k2] is Some implies exists|p: Seq<Cell>|
                                    #[trigger] self.is_walk(p) && p[0] == src && p.last() == cell_of(k2, wi) && p.len() - 1
                                        == dist@[k2]->0 by {
                                if k2 != nk {
                                    assert(before[k2] is Some);
                                } else {
                                    let p = choose|p: Seq<Cell>|
                                        #[trigger] self.is_walk(p) && p[0] == src && p.last() == cell_of(k as int, wi)
                                            && p.len() - 1 == before[k as int]->0;
                                    assert(self.is_walk(p.push(t)));
                                }
                            }
                            assert forall|j: int| 0 <= j < frontier@.len() implies {
                                &&& (#[trigger] frontier@[j]).1 < dist@.len()
                                &&& dist@[frontier@[j].1 as int] is Some
                                &&& dist@[frontier@[j].1 as int]->0 <= frontier@[j].0
                            } by {
                                if j < fbefore.len() {
                                    assert(frontier@[j] == fbefore[j]);
                                }
                            }
                        }
                    }
                    assert(dist@[nk as int] is Some && dist@[nk as int]->0 <= nc);
                    assert(nk as int == self.index(t));
                }
                assert(self.enterable(t) ==> dist@[self.index(t)] is Some && dist@[self.index(t)]->0 <= c + 1);
            } else {
                assert(!self.in_bounds(t) || c + 1 > usize::MAX);
            }
            assert(self.enterable(t) && c + 1 <= usize::MAX ==> dist@[self.index(t)] is Some && dist@[self.index(t)]->0 <= c + 1);
            assert(forall|j: int| 0 <= j < dist@.len() && j != self.index(t) ==> dist@[j] == dcur[j]);
            assert(!self.in_bounds(t) ==> dist@ == dcur);
            proof {
                assert forall|t2: Cell|
                    #[trigger] self.is_step(sk, t2) && (exists|d: int| 0 <= d < i + 1 && dir_offset(d) == (t2.0 - sk.0, t2.1 - sk.1))
                        && c + 1 <= usize::MAX implies {
                        &&& dist@[self.index(t2)] is Some
                        &&& dist@[self.index(t2)]->0 <= c + 1
                    } by {
                    let d = choose|d: int| 0 <= d < i + 1 && dir_offset(d) == (t2.0 - sk.0, t2.1 - sk.1);
                    lemma_index_roundtrip(wi, hi, t2);
                    if d == i as int {
                        assert(t2 == t);
                    } else {
                        assert(exists|d2: int| 0 <= d2 < i && dir_offset(d2) == (t2.0 - sk.0, t2.1 - sk.1));
                        assert(t2 != t);
                        if self.in_bounds(t) {
                            lemma_index_roundtrip(wi, hi, t);
                            assert(self.index(t2) != self.index(t));
                        }
                        assert(dist@[self.index(t2)] == dcur[self.index(t2)]);
                    }
                }
            }
            i += 1;
        }
        proof {
            assert forall|t: Cell| #[trigger] self.is_step(cell_of(k as int, wi), t) && dist@[k as int]->0 + 1 <= usize::MAX implies {
                &&& dist@[self.index(t)] is Some
                &&& dist@[self.index(t)]->0 <= dist@[k as int]->0 + 1
            } by {
                let d = choose|d: int| 0 <= d < 4 && #[trigger] dir_offset(d) == (t.0 - sk.0, t.1 - sk.1);
                assert(exists|d2: int| 0 <= d2 < 4 && dir_offset(d2) == (t.0 - sk.0, t.1 - sk.1));
            }
        }
    }
}

impl Field {
    proof fn lemma_walk_in_bounds(&self, p: Seq<Cell>, i: int)
        requires
            self.is_walk(p),
            0 <= i < p.len(),
        ensures
            self.in_bounds(p[i]),
    {
        if i > 0 {
            let i0 = i - 1;
            assert(self.is_step(p[i0], p[i0 + 1]));
        }
    }

    /// With every finite entry settled, no walk from `src` of at most
    /// `usize::MAX` steps beats the table at its last cell.
    proof fn lemma_table_bounds_walks(&self, dist: Seq<Option<usize>>, src: Cell, p: Seq<Cell>)
        requires
            self.wf(),
            dist.len() == self.open@.len(),
            self.in_bounds(src),
            dist[self.index(src)] == Some(0usize),
            self.is_walk(p),
            p[0] == src,
            p.len() - 1 <= usize::MAX,
            forall|k: int| 0 <= k < dist.len() && #[trigger] dist[k] is Some ==> self.settled(dist, k),
        ensures
            dist[self.index(p.last())] is Some,
            dist[self.index(p.last())]->0 <= p.len() - 1,
        decreases p.len(),
    {
        let wi = self.width as int;
        let hi = self.height as int;
        if p.len() > 1 {
            let q = p.drop_last();
            assert(self.is_walk(q)) by {
                assert forall|i: int| 0 <= i < q.len() - 1 implies #[trigger] self.is_step(q[i], q[i + 1]) by {
                    assert(self.is_step(p[i], p[i + 1]));
                }
            }
            self.lemma_table_bounds_walks(dist, src, q);
            let kq = self.index(q.last());
            self.lemma_walk_in_bounds(p, p.len() - 2);
            lemma_index_roundtrip(wi, hi, q.last());
            let i0 = p.len() - 2;
            assert(self.is_step(p[i0], p[i0 + 1]));
            assert(q.last() == p[i0]);
            assert(self.settled(dist, kq));
            assert(self.is_step(cell_of(kq, wi), p.last()));
        }
    }

    /// Least number of steps from `start` to every cell: `Some(d)` where the
    /// fewest steps are `d`, `None` where no walk of at most `usize::MAX`
    /// steps reaches it.
    pub fn distances(&self, start: (usize, usize)) -> (dist: Vec<Option<usize>>)
        requires
            self.wf(),
            self.in_bounds((start.0 as int, start.1 as int)),
        ensures
            dist@.len() == self.open@.len(),
            forall|k: int|
                0 <= k < dist@.len() ==> (#[trigger] dist@[k] matches Some(d) ==> self.is_least_steps(
                    (start.0 as int, start.1 as int),
                    cell_of(k, self.width as int),
                    d as int,
                )),
            forall|k: int|
                0 <= k < dist@.len() && #[trigger] dist@[k] is None ==> forall|p: Seq<Cell>|
                    #[trigger] self.is_route(p, (start.0 as int, start.1 as int), cell_of(k, self.width as int)) ==> p.len()
                        - 1 > usize::MAX,
    {
        let ghost wi = self.width as int;
        let ghost hi = self.height as int;
        let ghost src = (start.0 as int, start.1 as int);
        proof {
            lemma_index_roundtrip(wi, hi, src);
        }
        let sk = start.1 * self.width + start.0;
        let n = self.open.len();
        let mut dist: Vec<Option<usize>> = Vec::new();
        while dist.len() < n
            invariant
                n == self.open@.len(),
                dist@.len() <= n,
                forall|i: int| 0 <= i < dist@.len() ==> #[trigger] dist@[i] is None,
            decreases n - dist@.len(),
        {
            dist.push(None);
        }
        dist.set(sk, Some(0));
        let mut frontier: Vec<(usize, usize)> = Vec::new();
        frontier.push((0, sk));
        proof {
            assert(frontier@[0] == (0usize, sk));
            assert forall|k: int|
                0 <= k < dist@.len() && #[trigger] dist@[k] is Some implies exists|p: Seq<Cell>|
                    #[trigger] self.is_walk(p) && p[0] == src && p.last() == cell_of(k, wi) && p.len() - 1 == dist@[k]->0 by {
                assert(k == sk);
                let p = seq![src];
                assert(self.is_walk(p));
            }
        }
        while frontier.len() > 0
            invariant
                self.wf(),
                wi == self.width,
                hi == self.height,
                self.in_bounds(src),
                sk == self.index(src),
                cell_of(sk as int, wi) == src,
                dist@.len() == self.open@.len(),
                sk < dist@.len(),
                dist@[sk as int] == Some(0usize),
                self.sound(dist@, src),
                self.frontier_ok(dist@, frontier@),
                self.covered(dist@, frontier@),
            decreases dist_weight(dist@), frontier@.len(),
        {
            let j = min_index(&frontier);
            let ghost fr0 = frontier@;
            let ghost dist0 = dist@;
            let (c, k) = frontier.remove(j);
            assert(fr0[j as int] == (c, k));
            let best = match dist[k] {
                Some(b) => b,
                None => {
                    assert(false);
                    0
                },
            };
            if c > best {
                proof {
                    assert forall|k2: int|
                        0 <= k2 < dist@.len() && #[trigger] dist@[k2] is Some implies frontier@.contains((dist@[k2]->0, k2 as usize))
                            || self.settled(dist@, k2) by {
                        if fr0.contains((dist@[k2]->0, k2 as usize)) {
                            lemma_contains_remove(fr0, j as int, (dist@[k2]->0, k2 as usize));
                        }
                    }
                    assert forall|j2: int| 0 <= j2 < frontier@.len() implies {
                        &&& (#[trigger] frontier@[j2]).1 < dist@.len()
                        &&& dist@[frontier@[j2].1 as int] is Some
                        &&& dist@[frontier@[j2].1 as int]->0 <= frontier@[j2].0
                    } by {
                        if j2 < j {
                            assert(frontier@[j2] == fr0[j2]);
                        } else {
                            assert(frontier@[j2] == fr0[j2 + 1]);
                        }
                    }
                }
                continue;
            }
            self.relax_from(&mut dist, &mut frontier, k, c, Ghost(src));
            proof {
                assert forall|k2: int|
                    0 <= k2 < dist@.len() && #[trigger] dist@[k2] is Some implies frontier@.contains((dist@[k2]->0, k2 as usize))
                        || self.settled(dist@, k2) by {
                    if k2 == k {
                    } else if dist@[k2] != dist0[k2] {
                    } else {
                        assert(dist0[k2] is Some);
                        if fr0.contains((dist0[k2]->0, k2 as usize)) {
                            lemma_contains_remove(fr0, j as int, (dist0[k2]->0, k2 as usize));
                            let fr1 = fr0.remove(j as int);
                            let i3 = choose|i3: int| 0 <= i3 < fr1.len() && fr1[i3] == (dist0[k2]->0, k2 as usize);
                            assert(frontier@[i3] == fr1[i3]);
                        } else {
                            self.lemma_settled_mono(dist0, dist@, k2);
                        }
                    }
                }
            }
        }
        proof {
            assert forall|k: int| 0 <= k < dist@.len() && #[trigger] dist@[k] is Some implies self.settled(dist@, k) by {
                assert(!frontier@.contains((dist@[k]->0, k as usize)));
            }
            assert forall|k: int|
                0 <= k < dist@.len() implies (#[trigger] dist@[k] matches Some(d) ==> self.is_least_steps(src, cell_of(k, wi), d as int)) by {
                if let Some(d) = dist@[k] {
                    let p0 = choose|p: Seq<Cell>| #[trigger] self.is_walk(p) && p[0] == src && p.last() == cell_of(k, wi) && p.len() - 1 == d;
                    assert(self.is_route(p0, src, cell_of(k, wi)));
                    lemma_cell_roundtrip(wi, hi, k);
                    assert forall|p: Seq<Cell>| #[trigger] self.is_route(p, src, cell_of(k, wi)) implies p.len() - 1 >= d by {
                        if p.len() - 1 <= usize::MAX {
                            self.lemma_table_bounds_walks(dist@, src, p);
                        }
                    }
                }
            }
            assert forall|k: int| 0 <= k < dist@.len() && #[trigger] dist@[k] is None implies forall|p: Seq<Cell>|
                #[trigger] self.is_route(p, src, cell_of(k, wi)) ==> p.len() - 1 > usize::MAX by {
                lemma_cell_roundtrip(wi, hi, k);
                assert forall|p: Seq<Cell>| #[trigger] self.is_route(p, src, cell_of(k, wi)) implies p.len() - 1 > usize::MAX by {
                    if p.len() - 1 <= usize::MAX {
                        self.lemma_table_bounds_walks(dist@, src, p);
                    }
                }
            }
        }
        dist
    }
}

impl Field {
    /// A cell at least one step from `s` has a neighbour one step nearer.
    pub proof fn lemma_predecessor(&self, dist: &Vec<Option<usize>>, s: Cell, c: Cell, k: int)
        requires
            self.wf(),
            dist@.len() == self.open@.len(),
            forall|k2: int|
                0 <= k2 < dist@.len() ==> (#[trigger] dist@[k2] matches Some(d) ==> self.is_least_steps(
                    s,
                    cell_of(k2, self.width as int),
                    d as int,
                )),
            forall|k2: int|
                0 <= k2 < dist@.len() && #[trigger] dist@[k2] is None ==> forall|p: Seq<Cell>|
                    #[trigger] self.is_route(p, s, cell_of(k2, self.width as int)) ==> p.len() - 1 > usize::MAX,
            self.in_bounds(c),
            self.is_least_steps(s, c, k),
            0 < k <= usize::MAX,
        ensures
            exists|i: int| 0 <= i < 4 && #[trigger] self.is_predecessor(dist@, c, k, i),
    {
        let wi = self.width as int;
        let hi = self.height as int;
        let p = choose|p: Seq<Cell>| #[trigger] self.is_route(p, s, c) && p.len() - 1 == k;
        let i0 = k - 1;
        assert(self.is_step(p[i0], p[i0 + 1]));
        let q = p[i0];
        let i = choose|i: int| 0 <= i < 4 && #[trigger] dir_offset(i) == (c.0 - q.0, c.1 - q.1);
        self.lemma_walk_in_bounds(p, i0);
        let pre = p.subrange(0, k);
        assert(self.is_walk(pre)) by {
            assert forall|j: int| 0 <= j < pre.len() - 1 implies #[trigger] self.is_step(pre[j], pre[j + 1]) by {
                assert(self.is_step(p[j], p[j + 1]));
            }
        }
        assert(self.is_route(pre, s, q));
        lemma_index_roundtrip(wi, hi, q);
        let kq = self.index(q);
        assert(cell_of(kq, wi) == q);
        if dist@[kq] is None {
            assert(self.is_route(pre, s, cell_of(kq, wi)));
        }
        let d = dist@[kq]->0;
        assert(self.is_least_steps(s, q, d as int));
        if d < k - 1 {
            let w = choose|w: Seq<Cell>| #[trigger] self.is_route(w, s, q) && w.len() - 1 == d;
            lemma_walk_push(self, w, c);
            assert(self.is_route(w.push(c), s, c));
        }
        assert(pre.len() - 1 == k - 1);
        assert(d <= k - 1);
        assert(q == (c.0 - dir_offset(i).0, c.1 - dir_offset(i).1));
        assert(self.is_predecessor(dist@, c, k, i));
    }

    /// The neighbour of `c` against direction `i` is one step nearer.
    pub open spec fn is_predecessor(&self, dist: Seq<Option<usize>>, c: Cell, k: int, i: int) -> bool {
        let n = (c.0 - dir_offset(i).0, c.1 - dir_offset(i).1);
        &&& self.in_bounds(n)
        &&& self.is_step(n, c)
        &&& dist[self.index(n)] == Some((k - 1) as usize)
    }
}

} // verus!
