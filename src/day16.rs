use vstd::prelude::*;
use vstd::arithmetic::div_mod::lemma_fundamental_div_mod_converse;
use crate::grid::{parse_grid, grid_shape, cells_match};

verus! {

/// Facings, in clockwise order.
pub const UP: usize = 0;
pub const RIGHT: usize = 1;
pub const DOWN: usize = 2;
pub const LEFT: usize = 3;
/// The facing a search starts with.
pub const EAST: usize = 1;

/// Column change of one step along facing `d`.
pub open spec fn step_x(d: int) -> int {
    if d == 1 {
        1
    } else if d == 3 {
        -1
    } else {
        0
    }
}

/// Row change of one step along facing `d`.
pub open spec fn step_y(d: int) -> int {
    if d == 0 {
        -1
    } else if d == 2 {
        1
    } else {
        0
    }
}

/// Fewest quarter turns that take facing `a` to facing `b`.
pub open spec fn quarter_turns(a: int, b: int) -> int {
    let cw = (4 + b - a) % 4;
    let ccw = (4 - cw) % 4;
    if cw <= ccw {
        cw
    } else {
        ccw
    }
}

pub open spec fn turn_cost_spec(a: int, b: int) -> int {
    1000 * quarter_turns(a, b)
}

/// A search state: column, row and facing.
pub type State = (int, int, int);

/// Cost of one move into state `b` from state `a`.
pub open spec fn move_cost(a: State, b: State) -> int {
    1 + turn_cost_spec(a.2, b.2)
}

/// Total cost of a walk: the sum of its moves.
pub open spec fn walk_cost(p: Seq<State>) -> int
    decreases p.len(),
{
    if p.len() <= 1 {
        0
    } else {
        walk_cost(p.drop_last()) + move_cost(p[p.len() - 2], p[p.len() - 1])
    }
}

pub struct Maze {
    pub tiles: Vec<char>,
    pub width: usize,
    pub height: usize,
}

impl Maze {
    pub open spec fn wf(&self) -> bool {
        &&& self.width >= 1
        &&& self.height >= 1
        &&& self.tiles@.len() == self.width * self.height
        &&& self.tiles@.len() * 4 < usize::MAX
    }

    pub open spec fn in_bounds(&self, x: int, y: int) -> bool {
        0 <= x < self.width && 0 <= y < self.height
    }

    pub open spec fn tile_spec(&self, x: int, y: int) -> Option<char> {
        if self.in_bounds(x, y) {
            Some(self.tiles@[y * self.width + x])
        } else {
            None
        }
    }

    /// A cell that can be entered: inside the grid and not a wall.
    pub open spec fn is_open(&self, x: int, y: int) -> bool {
        self.in_bounds(x, y) && self.tiles@[y * self.width + x] != '#'
    }

    /// `b` follows `a` by one step along `b`'s facing into an open cell.
    pub open spec fn is_move(&self, a: State, b: State) -> bool {
        &&& 0 <= b.2 < 4
        &&& b.0 == a.0 + step_x(b.2)
        &&& b.1 == a.1 + step_y(b.2)
        &&& self.is_open(b.0, b.1)
    }

    pub open spec fn is_walk(&self, p: Seq<State>) -> bool {
        &&& p.len() >= 1
        &&& forall|i: int| 0 <= i < p.len() - 1 ==> #[trigger] self.is_move(p[i], p[i + 1])
    }

    /// `p` is a walk that leaves `start` facing `dir` and ends on `end`.
    pub open spec fn is_route(&self, p: Seq<State>, start: (int, int), dir: int, end: (int, int)) -> bool {
        &&& self.is_walk(p)
        &&& p[0] == (start.0, start.1, dir)
        &&& p.last().0 == end.0
        &&& p.last().1 == end.1
    }

    /// `c` is the least cost of the routes from `start` to `end`.
    pub open spec fn is_least_cost(&self, start: (int, int), dir: int, end: (int, int), c: int) -> bool {
        &&& exists|p: Seq<State>| #[trigger] self.is_route(p, start, dir, end) && walk_cost(p) == c
        &&& forall|p: Seq<State>| #[trigger] self.is_route(p, start, dir, end) ==> walk_cost(p) >= c
    }

    /// The least route cost, where one exists.
    pub open spec fn least_cost(&self, start: (int, int), dir: int, end: (int, int)) -> Option<int> {
        if exists|c: int| self.is_least_cost(start, dir, end, c) {
            Some(choose|c: int| self.is_least_cost(start, dir, end, c))
        } else {
            None
        }
    }

    /// Builds a map from grid text; `None` where the text is not a rectangular grid.
    pub fn new(input: &str) -> (r: Option<Self>)
        requires
            input@.len() * 4 < usize::MAX,
        ensures
            r is Some <==> exists|w: int, h: int| grid_shape(input@, w, h),
            r matches Some(m) ==> m.wf() && grid_shape(input@, m.width as int, m.height as int)
                && cells_match(m.tiles@, input@, m.width as int, m.height as int),
    {
        match parse_grid(input) {
            Some((tiles, width, height)) => {
                assert(tiles@.len() <= input@.len()) by (nonlinear_arith)
                    requires
                        tiles@.len() == width * height,
                        grid_shape(input@, width as int, height as int),
                ;
                Some(Maze { tiles, width, height })
            },
            None => None,
        }
    }

    /// The cell at `pos`, or `None` outside the grid.
    pub fn get_tile(&self, pos: (isize, isize)) -> (r: Option<char>)
        requires
            self.wf(),
        ensures
            r == self.tile_spec(pos.0 as int, pos.1 as int),
    {
        let (x, y) = pos;
        if x < 0 || y < 0 {
            return None;
        }
        let x = x as usize;
        let y = y as usize;
        if x >= self.width || y >= self.height {
            return None;
        }
        proof {
            lemma_cell_index(self.width as int, self.height as int, x as int, y as int);
        }
        Some(self.tiles[y * self.width + x])
    }
}

pub proof fn lemma_cell_index(w: int, h: int, x: int, y: int)
    requires
        0 <= x < w,
        0 <= y < h,
    ensures
        0 <= y * w + x < w * h,
{
    assert(0 <= y * w + x < w * h) by (nonlinear_arith)
        requires 0 <= x < w, 0 <= y < h;
}

/// The state stored at index `k` of a table over a grid of width `w`.
pub open spec fn state_of(k: int, w: int) -> State {
    ((k / 4) % w, (k / 4) / w, k % 4)
}

/// The table index of state `s` over a grid of width `w`.
pub open spec fn index_of(s: State, w: int) -> int {
    (s.1 * w + s.0) * 4 + s.2
}

pub proof fn lemma_index_state(w: int, h: int, s: State)
    requires
        0 <= s.0 < w,
        0 <= s.1 < h,
        0 <= s.2 < 4,
    ensures
        0 <= index_of(s, w) < w * h * 4,
        state_of(index_of(s, w), w) == s,
{
    let c = s.1 * w + s.0;
    lemma_cell_index(w, h, s.0, s.1);
    assert(0 <= c * 4 + s.2 < w * h * 4) by (nonlinear_arith)
        requires 0 <= c < w * h, 0 <= s.2 < 4;
    lemma_fundamental_div_mod_converse(c * 4 + s.2, 4, c, s.2);
    lemma_fundamental_div_mod_converse(c, w, s.1, s.0);
}

pub proof fn lemma_state_index(w: int, h: int, k: int)
    requires
        w >= 1,
        h >= 1,
        0 <= k < w * h * 4,
    ensures
        0 <= state_of(k, w).0 < w,
        0 <= state_of(k, w).1 < h,
        0 <= state_of(k, w).2 < 4,
        index_of(state_of(k, w), w) == k,
{
    vstd::arithmetic::div_mod::lemma_fundamental_div_mod(k, 4);
    vstd::arithmetic::div_mod::lemma_mod_bound(k, 4);
    let c = k / 4;
    assert(0 <= c < w * h) by (nonlinear_arith)
        requires k == 4 * c + k % 4, 0 <= k % 4 < 4, 0 <= k < w * h * 4;
    vstd::arithmetic::div_mod::lemma_fundamental_div_mod(c, w);
    vstd::arithmetic::div_mod::lemma_mod_bound(c, w);
    let y = c / w;
    let x = c % w;
    assert(0 <= y < h) by (nonlinear_arith)
        requires c == w * y + x, 0 <= x < w, 0 <= c < w * h, w >= 1;
    assert(index_of(state_of(k, w), w) == (y * w + x) * 4 + k % 4);
    assert((y * w + x) * 4 + k % 4 == k) by (nonlinear_arith)
        requires c == w * y + x, k == 4 * c + k % 4;
}

/// How far an entry of the distance table is from the bottom, for termination.
pub open spec fn dist_measure(o: Option<usize>) -> nat {
    match o {
        Some(d) => d as nat,
        None => usize::MAX as nat + 1,
    }
}

pub open spec fn dist_weight(s: Seq<Option<usize>>) -> nat
    decreases s.len(),
{
    if s.len() == 0 {
        0
    } else {
        dist_weight(s.drop_last()) + dist_measure(s.last())
    }
}

proof fn lemma_weight_update(s: Seq<Option<usize>>, i: int, v: Option<usize>)
    requires
        0 <= i < s.len(),
    ensures
        dist_weight(s.update(i, v)) + dist_measure(s[i]) == dist_weight(s) + dist_measure(v),
    decreases s.len(),
{
    if i == s.len() - 1 {
        assert(s.update(i, v).drop_last() =~= s.drop_last());
    } else {
        assert(s.update(i, v).drop_last() =~= s.drop_last().update(i, v));
        lemma_weight_update(s.drop_last(), i, v);
    }
}

proof fn lemma_walk_push(m: &Maze, p: Seq<State>, t: State)
    requires
        m.is_walk(p),
        m.is_move(p.last(), t),
    ensures
        m.is_walk(p.push(t)),
        walk_cost(p.push(t)) == walk_cost(p) + move_cost(p.last(), t),
        p.push(t)[0] == p[0],
        p.push(t).last() == t,
{
    let q = p.push(t);
    assert(q.drop_last() =~= p);
    assert forall|i: int| 0 <= i < q.len() - 1 implies #[trigger] m.is_move(q[i], q[i + 1]) by {
        if i < p.len() - 1 {
            assert(m.is_move(p[i], p[i + 1]));
        }
    }
}

proof fn lemma_walk_cost_nonneg(p: Seq<State>)
    ensures
        walk_cost(p) >= 0,
        p.len() >= 2 ==> walk_cost(p) >= walk_cost(p.drop_last()) + 1,
    decreases p.len(),
{
    if p.len() > 1 {
        lemma_walk_cost_nonneg(p.drop_last());
    }
}

impl Maze {
    pub open spec fn n_states(&self) -> int {
        self.width * self.height * 4
    }

    /// Every move out of state `k` is relaxed against the table.
    pub open spec fn settled(&self, dist: Seq<Option<usize>>, k: int) -> bool {
        forall|t: State|
            #[trigger] self.is_move(state_of(k, self.width as int), t) && dist[k]->0 + move_cost(
                state_of(k, self.width as int),
                t,
            ) <= usize::MAX ==> {
                &&& dist[index_of(t, self.width as int)] is Some
                &&& dist[index_of(t, self.width as int)]->0 <= dist[k]->0 + move_cost(
                    state_of(k, self.width as int),
                    t,
                )
            }
    }

    /// Every finite entry of the table is the cost of some walk from `src`.
    pub open spec fn sound(&self, dist: Seq<Option<usize>>, src: State) -> bool {
        forall|k: int|
            0 <= k < dist.len() && #[trigger] dist[k] is Some ==> exists|p: Seq<State>|
                #[trigger] self.is_walk(p) && p[0] == src && p.last() == state_of(
                    k,
                    self.width as int,
                ) && walk_cost(p) == dist[k]->0
    }

    pub open spec fn frontier_ok(&self, dist: Seq<Option<usize>>, fr: Seq<(usize, usize)>) -> bool {
        forall|j: int|
            0 <= j < fr.len() ==> {
                &&& (#[trigger] fr[j]).1 < dist.len()
                &&& dist[fr[j].1 as int] is Some
                &&& dist[fr[j].1 as int]->0 <= fr[j].0
            }
    }

    pub open spec fn at_pos(&self, k: int, end: (int, int)) -> bool {
        state_of(k, self.width as int).0 == end.0 && state_of(k, self.width as int).1 == end.1
    }

    /// Each finite entry is waiting in the frontier or is settled; with `stop`,
    /// no settled state lies on `end`.
    pub open spec fn covered(
        &self,
        dist: Seq<Option<usize>>,
        fr: Seq<(usize, usize)>,
        end: (int, int),
        stop: bool,
    ) -> bool {
        forall|k: int|
            0 <= k < dist.len() && #[trigger] dist[k] is Some ==> fr.contains((dist[k]->0, k as usize))
                || (self.settled(dist, k) && (stop ==> !self.at_pos(k, end)))
    }

    /// Turning cost between two facings: 1000 for each quarter turn.
    pub fn rotation_cost(from: usize, to: usize) -> (r: usize)
        requires
            from < 4,
            to < 4,
        ensures
            r == turn_cost_spec(from as int, to as int),
    {
        let clockwise = (4 + to - from) % 4;
        let counterclockwise = (4 - clockwise) % 4;
        let rotations = if clockwise <= counterclockwise {
            clockwise
        } else {
            counterclockwise
        };
        rotations * 1000
    }
}

/// Column and row change of one step along a facing.
pub fn facing_offset(d: usize) -> (r: (isize, isize))
    requires
        d < 4,
    ensures
        r.0 == step_x(d as int),
        r.1 == step_y(d as int),
{
    if d == UP {
        (0, -1)
    } else if d == RIGHT {
        (1, 0)
    } else if d == DOWN {
        (0, 1)
    } else {
        (-1, 0)
    }
}

impl Maze {
    proof fn lemma_settled_mono(&self, a: Seq<Option<usize>>, b: Seq<Option<usize>>, k: int)
        requires
            self.settled(a, k),
            a.len() == b.len(),
            0 <= k < a.len(),
            b[k] == a[k],
            forall|i: int| 0 <= i < a.len() && #[trigger] a[i] is Some ==> b[i] is Some && b[i]->0 <= a[i]->0,
            forall|t: State| #[trigger] self.is_move(state_of(k, self.width as int), t) ==> 0 <= index_of(t, self.width as int) < a.len(),
        ensures
            self.settled(b, k),
    {
        assert forall|t: State|
            #[trigger] self.is_move(state_of(k, self.width as int), t) && b[k]->0 + move_cost(
                state_of(k, self.width as int),
                t,
            ) <= usize::MAX implies {
                &&& b[index_of(t, self.width as int)] is Some
                &&& b[index_of(t, self.width as int)]->0 <= b[k]->0 + move_cost(
                    state_of(k, self.width as int),
                    t,
                )
            } by {
            let i = index_of(t, self.width as int);
            assert(a[i] is Some);
        }
    }

    /// Relaxes every move out of state `k`, whose table entry is `c`: each
    /// neighbour whose entry improves gets the new cost and a frontier entry.
    fn relax_from(
        &self,
        dist: &mut Vec<Option<usize>>,
        frontier: &mut Vec<(usize, usize)>,
        k: usize,
        c: usize,
        Ghost(src): Ghost<State>,
    )
        requires
            self.wf(),
            old(dist)@.len() == self.n_states(),
            k < old(dist)@.len(),
            old(dist)@[k as int] == Some(c),
            self.sound(old(dist)@, src),
            self.frontier_ok(old(dist)@, old(frontier)@),
        ensures
            final(dist)@.len() == old(dist)@.len(),
            final(dist)@[k as int] == Some(c),
            forall|i: int|
                0 <= i < old(dist)@.len() && #[trigger] old(dist)@[i] is Some ==> final(dist)@[i] is Some
                    && final(dist)@[i]->0 <= old(dist)@[i]->0,
            forall|i: int|
                0 <= i < old(dist)@.len() && #[trigger] final(dist)@[i] != old(dist)@[i]
                    ==> final(frontier)@.contains((final(dist)@[i]->0, i as usize)),
            final(frontier)@.len() >= old(frontier)@.len(),
            forall|j: int| 0 <= j < old(frontier)@.len() ==> #[trigger] final(frontier)@[j] == old(frontier)@[j],
            self.sound(final(dist)@, src),
            self.frontier_ok(final(dist)@, final(frontier)@),
            self.settled(final(dist)@, k as int),
            dist_weight(final(dist)@) < dist_weight(old(dist)@) || (final(dist)@ == old(dist)@
                && final(frontier)@ == old(frontier)@),
    {
        let w = self.width;
        let ghost wi = w as int;
        let ghost sk = state_of(k as int, wi);
        proof {
            lemma_state_index(wi, self.height as int, k as int);
        }
        let cell = k / 4;
        let x = cell % w;
        let y = cell / w;
        let d = k % 4;
        assert(sk == (x as int, y as int, d as int));
        let ghost d0 = dist@;
        let ghost f0 = frontier@;
        assert(self.width <= self.tiles@.len() && self.height <= self.tiles@.len()) by (nonlinear_arith)
            requires
                self.tiles@.len() == self.width * self.height,
                self.width >= 1,
                self.height >= 1,
        ;
        let mut nd: usize = 0;
        while nd < 4
            invariant
                self.wf(),
                w == self.width,
                wi == w,
                nd <= 4,
                sk == state_of(k as int, wi),
                sk == (x as int, y as int, d as int),
                0 <= x < self.width,
                0 <= y < self.height,
                self.width <= self.tiles@.len(),
                self.height <= self.tiles@.len(),
                d < 4,
                dist@.len() == d0.len(),
                d0.len() == self.n_states(),
                k < d0.len(),
                d0[k as int] == Some(c),
                dist@[k as int] == Some(c),
                self.sound(dist@, src),
                self.frontier_ok(dist@, frontier@),
                forall|i: int|
                    0 <= i < d0.len() && #[trigger] d0[i] is Some ==> dist@[i] is Some && dist@[i]->0
                        <= d0[i]->0,
                forall|i: int|
                    0 <= i < d0.len() && #[trigger] dist@[i] != d0[i] ==> frontier@.contains(
                        (dist@[i]->0, i as usize),
                    ),
                frontier@.len() >= f0.len(),
                forall|j: int| 0 <= j < f0.len() ==> #[trigger] frontier@[j] == f0[j],
                forall|t: State|
                    #[trigger] self.is_move(sk, t) && t.2 < nd && c + move_cost(sk, t) <= usize::MAX
                        ==> {
                        &&& dist@[index_of(t, wi)] is Some
                        &&& dist@[index_of(t, wi)]->0 <= c + move_cost(sk, t)
                    },
                dist_weight(dist@) < dist_weight(d0) || (dist@ == d0 && frontier@ == f0),
            decreases 4 - nd,
        {
            let (dx, dy) = facing_offset(nd);
            let nx = x as isize + dx;
            let ny = y as isize + dy;
            let ghost t: State = (nx as int, ny as int, nd as int);
            match self.get_tile((nx, ny)) {
                Some(tile) => {
                    if tile != '#' {
                        assert(self.is_move(sk, t));
                        let ux = nx as usize;
                        let uy = ny as usize;
                        proof {
                            lemma_index_state(wi, self.height as int, t);
                            lemma_cell_index(wi, self.height as int, ux as int, uy as int);
                            assert((uy * w + ux) * 4 + nd < self.n_states()) by (nonlinear_arith)
                                requires
                                    0 <= uy * w + ux < self.width * self.height,
                                    nd < 4,
                                    self.n_states() == self.width * self.height * 4,
                            ;
                        }
                        let nk = (uy * w + ux) * 4 + nd;
                        assert(nk == index_of(t, wi));
                        assert(nk != k);
                        let step = 1 + Self::rotation_cost(d, nd);
                        if c <= usize::MAX - step {
                            let nc = c + step;
                            let better = match dist[nk] {
                                Some(old_cost) => nc < old_cost,
                                None => true,
                            };
                            if better {
                                let ghost before = dist@;
                                let ghost fbefore = frontier@;
                                proof {
                                    let p = choose|p: Seq<State>|
                                        #[trigger] self.is_walk(p) && p[0] == src && p.last()
                                            == state_of(k as int, wi) && walk_cost(p) == before[k as int]->0;
                                    lemma_walk_push(self, p, t);
                                    lemma_weight_update(before, nk as int, Some(nc));
                                }
                                dist.set(nk, Some(nc));
                                frontier.push((nc, nk));
                                proof {
                                    assert(frontier@[frontier@.len() - 1] == (nc, nk));
                                    assert forall|i: int|
                                        0 <= i < d0.len() && #[trigger] dist@[i] != d0[i] implies frontier@.contains(
                                            (dist@[i]->0, i as usize),
                                        ) by {
                                        if i != nk {
                                            assert(fbefore.contains((before[i]->0, i as usize)));
                                            let j = choose|j: int| 0 <= j < fbefore.len() && fbefore[j] == (before[i]->0, i as usize);
                                            assert(frontier@[j] == fbefore[j]);
                                        } else {
                                            assert(frontier@[frontier@.len() - 1] == (nc, nk));
                                        }
                                    }
                                    assert forall|k2: int|
                                        0 <= k2 < dist@.len() && #[trigger] dist@[k2] is Some implies exists|p: Seq<State>|
                                            #[trigger] self.is_walk(p) && p[0] == src && p.last() == state_of(
                                                k2,
                                                wi,
                                            ) && walk_cost(p) == dist@[k2]->0 by {
                                        if k2 != nk {
                                            assert(before[k2] is Some);
                                        } else {
                                            let p = choose|p: Seq<State>|
                                                #[trigger] self.is_walk(p) && p[0] == src && p.last()
                                                    == state_of(k as int, wi) && walk_cost(p) == before[k as int]->0;
                                            assert(self.is_walk(p.push(t)));
                                        }
                                    }
                                    assert forall|t2: State|
                                        #[trigger] self.is_move(sk, t2) && t2.2 < nd + 1 && c + move_cost(sk, t2) <= usize::MAX
                                            implies {
                                            &&& dist@[index_of(t2, wi)] is Some
                                            &&& dist@[index_of(t2, wi)]->0 <= c + move_cost(sk, t2)
                                        } by {
                                        if t2.2 < nd {
                                            lemma_index_state(wi, self.height as int, t2);
                                            assert(index_of(t2, wi) != nk);
                                        } else {
                                            assert(t2 == t);
                                        }
                                    }
                                }
                            } else {
                                proof {
                                    assert forall|t2: State|
                                        #[trigger] self.is_move(sk, t2) && t2.2 < nd + 1 && c + move_cost(sk, t2) <= usize::MAX
                                            implies {
                                            &&& dist@[index_of(t2, wi)] is Some
                                            &&& dist@[index_of(t2, wi)]->0 <= c + move_cost(sk, t2)
                                        } by {
                                        if t2.2 == nd {
                                            assert(t2 == t);
                                        }
                                    }
                                }
                            }
                        } else {
                            proof {
                                assert forall|t2: State|
                                    #[trigger] self.is_move(sk, t2) && t2.2 < nd + 1 && c + move_cost(sk, t2) <= usize::MAX
                                        implies {
                                        &&& dist@[index_of(t2, wi)] is Some
                                        &&& dist@[index_of(t2, wi)]->0 <= c + move_cost(sk, t2)
                                    } by {
                                    if t2.2 == nd {
                                        assert(t2 == t);
                                    }
                                }
                            }
                        }
                    } else {
                        proof {
                            assert forall|t2: State|
                                #[trigger] self.is_move(sk, t2) && t2.2 < nd + 1 && c + move_cost(sk, t2) <= usize::MAX
                                    implies {
                                    &&& dist@[index_of(t2, wi)] is Some
                                    &&& dist@[index_of(t2, wi)]->0 <= c + move_cost(sk, t2)
                                } by {
                                if t2.2 == nd {
                                    assert(t2 == t);
                                }
                            }
                        }
                    }
                },
                None => {
                    proof {
                        assert forall|t2: State|
                            #[trigger] self.is_move(sk, t2) && t2.2 < nd + 1 && c + move_cost(sk, t2) <= usize::MAX
                                implies {
                                &&& dist@[index_of(t2, wi)] is Some
                                &&& dist@[index_of(t2, wi)]->0 <= c + move_cost(sk, t2)
                            } by {
                            if t2.2 == nd {
                                assert(t2 == t);
                            }
                        }
                    }
                },
            }
            nd += 1;
        }
    }
}

/// Index of an entry of least cost.
fn min_index(fr: &Vec<(usize, usize)>) -> (j: usize)
    requires
        fr@.len() > 0,
    ensures
        j < fr@.len(),
        forall|i: int| 0 <= i < fr@.len() ==> fr@[j as int].0 <= (#[trigger] fr@[i]).0,
{
    let mut j: usize = 0;
    let mut i: usize = 1;
    while i < fr.len()
        invariant
            0 <= j < i <= fr@.len(),
            forall|i2: int| 0 <= i2 < i ==> fr@[j as int].0 <= (#[trigger] fr@[i2]).0,
        decreases fr@.len() - i,
    {
        if fr[i].0 < fr[j].0 {
            j = i;
        }
        i += 1;
    }
    j
}

proof fn lemma_contains_remove(s: Seq<(usize, usize)>, j: int, a: (usize, usize))
    requires
        0 <= j < s.len(),
        s.contains(a),
        s[j] != a,
    ensures
        s.remove(j).contains(a),
{
    let i = choose|i: int| 0 <= i < s.len() && s[i] == a;
    if i < j {
        assert(s.remove(j)[i] == a);
    } else {
        assert(s.remove(j)[i - 1] == a);
    }
}

impl Maze {
    /// States of a walk that starts inside the grid all lie inside it.
    proof fn lemma_walk_in_bounds(&self, p: Seq<State>, i: int)
        requires
            self.is_walk(p),
            0 <= i < p.len(),
            self.in_bounds(p[0].0, p[0].1),
            0 <= p[0].2 < 4,
        ensures
            self.in_bounds(p[i].0, p[i].1),
            0 <= p[i].2 < 4,
    {
        if i > 0 {
            let i0 = i - 1;
            assert(self.is_move(p[i0], p[i0 + 1]));
            assert(p[i0 + 1] == p[i]);
        }
    }

    /// Where every finite entry under `bound` is settled, no walk from the
    /// source cheaper than `bound` beats the table at its last state.
    proof fn lemma_table_bounds_walks(
        &self,
        dist: Seq<Option<usize>>,
        src: State,
        bound: int,
        p: Seq<State>,
    )
        requires
            self.wf(),
            dist.len() == self.n_states(),
            self.in_bounds(src.0, src.1),
            0 <= src.2 < 4,
            dist[index_of(src, self.width as int)] == Some(0usize),
            self.is_walk(p),
            p[0] == src,
            walk_cost(p) < bound,
            bound <= usize::MAX + 1,
            forall|k: int|
                0 <= k < dist.len() && #[trigger] dist[k] is Some && dist[k]->0 < bound ==> self.settled(
                    dist,
                    k,
                ),
        ensures
            dist[index_of(p.last(), self.width as int)] is Some,
            dist[index_of(p.last(), self.width as int)]->0 <= walk_cost(p),
        decreases p.len(),
    {
        let wi = self.width as int;
        let hi = self.height as int;
        lemma_walk_cost_nonneg(p);
        if p.len() > 1 {
            let q = p.drop_last();
            assert(self.is_walk(q)) by {
                assert forall|i: int| 0 <= i < q.len() - 1 implies #[trigger] self.is_move(q[i], q[i + 1]) by {
                    assert(self.is_move(p[i], p[i + 1]));
                }
            }
            self.lemma_table_bounds_walks(dist, src, bound, q);
            let kq = index_of(q.last(), wi);
            self.lemma_walk_in_bounds(p, p.len() - 2);
            self.lemma_walk_in_bounds(p, p.len() - 1);
            lemma_index_state(wi, hi, q.last());
            lemma_index_state(wi, hi, p.last());
            assert(q.last() == p[p.len() - 2]);
            let i0 = p.len() - 2;
            assert(self.is_move(p[i0], p[i0 + 1]));
            assert(self.settled(dist, kq));
            assert(self.is_move(state_of(kq, wi), p.last()));
        } else {
            assert(p.last() == src);
        }
    }

    /// Least-cost search over states from `src`, popping the cheapest frontier
    /// entry each round. With `stop`, it returns the cost of the first state
    /// popped on `end`; otherwise it runs until the frontier is empty.
    fn explore(&self, sk: usize, end: (isize, isize), stop: bool) -> (r: (Option<usize>, Vec<Option<usize>>))
        requires
            self.wf(),
            sk < self.n_states(),
        ensures
            r.1@.len() == self.n_states(),
            self.sound(r.1@, state_of(sk as int, self.width as int)),
            r.1@[sk as int] == Some(0usize),
            !stop ==> r.0 is None,
            !stop ==> forall|k: int| 0 <= k < r.1@.len() && #[trigger] r.1@[k] is Some ==> self.settled(r.1@, k),
            stop ==> (r.0 matches Some(c) ==> self.is_least_cost(
                (state_of(sk as int, self.width as int).0, state_of(sk as int, self.width as int).1),
                state_of(sk as int, self.width as int).2,
                (end.0 as int, end.1 as int),
                c as int,
            )),
            stop ==> (r.0 is None ==> forall|p: Seq<State>|
                #[trigger] self.is_route(
                    p,
                    (state_of(sk as int, self.width as int).0, state_of(sk as int, self.width as int).1),
                    state_of(sk as int, self.width as int).2,
                    (end.0 as int, end.1 as int),
                ) ==> walk_cost(p) > usize::MAX),
    {
        let ghost wi = self.width as int;
        let ghost hi = self.height as int;
        let ghost src = state_of(sk as int, wi);
        let ghost endi = (end.0 as int, end.1 as int);
        proof {
            lemma_state_index(wi, hi, sk as int);
        }
        let n = self.width * self.height * 4;
        let mut dist: Vec<Option<usize>> = Vec::new();
        while dist.len() < n
            invariant
                n == self.n_states(),
                dist@.len() <= n,
                forall|i: int| 0 <= i < dist@.len() ==> #[trigger] dist@[i] is None,
            decreases n - dist@.len(),
        {
            dist.push(None);
        }
        dist.set(sk, Some(0));
        let mut frontier: Vec<(usize, usize)> = Vec::new();
        frontier.push((0, sk));
        proof {
            assert(frontier@[0] == (0usize, sk));
            assert forall|k: int|
                0 <= k < dist@.len() && #[trigger] dist@[k] is Some implies exists|p: Seq<State>|
                    #[trigger] self.is_walk(p) && p[0] == src && p.last() == state_of(k, wi) && walk_cost(p) == dist@[k]->0 by {
                assert(k == sk);
                let p = seq![src];
                assert(self.is_walk(p));
            }
        }
        while frontier.len() > 0
            invariant
                self.wf(),
                wi == self.width,
                hi == self.height,
                src == state_of(sk as int, wi),
                self.in_bounds(src.0, src.1),
                0 <= src.2 < 4,
                index_of(src, wi) == sk,
                endi == (end.0 as int, end.1 as int),
                dist@.len() == self.n_states(),
                sk < dist@.len(),
                dist@[sk as int] == Some(0usize),
                self.sound(dist@, src),
                self.frontier_ok(dist@, frontier@),
                self.covered(dist@, frontier@, endi, stop),
            decreases dist_weight(dist@), frontier@.len(),
        {
            let j = min_index(&frontier);
            let ghost fr0 = frontier@;
            let ghost dist0 = dist@;
            let (c, k) = frontier.remove(j);
            assert(fr0[j as int] == (c, k));
            let best = match dist[k] {
                Some(b) => b,
                None => {
                    assert(false);
                    0
                },
            };
            if c > best {
                proof {
                    assert forall|k2: int|
                        0 <= k2 < dist@.len() && #[trigger] dist@[k2] is Some implies frontier@.contains((dist@[k2]->0, k2 as usize))
                            || (self.settled(dist@, k2) && (stop ==> !self.at_pos(k2, endi))) by {
                        if fr0.contains((dist@[k2]->0, k2 as usize)) {
                            lemma_contains_remove(fr0, j as int, (dist@[k2]->0, k2 as usize));
                        }
                    }
                    assert forall|j2: int| 0 <= j2 < frontier@.len() implies {
                        &&& (#[trigger] frontier@[j2]).1 < dist@.len()
                        &&& dist@[frontier@[j2].1 as int] is Some
                        &&& dist@[frontier@[j2].1 as int]->0 <= frontier@[j2].0
                    } by {
                        if j2 < j {
                            assert(frontier@[j2] == fr0[j2]);
                        } else {
                            assert(frontier@[j2] == fr0[j2 + 1]);
                        }
                    }
                }
                continue;
            }
            proof {
                lemma_state_index(wi, hi, k as int);
            }
            let cell = k / 4;
            let x = cell % self.width;
            let y = cell / self.width;
            if stop && x as isize == end.0 && y as isize == end.1 {
                proof {
                    let sk2 = state_of(k as int, wi);
                    assert(self.at_pos(k as int, endi));
                    let p0 = choose|p: Seq<State>|
                        #[trigger] self.is_walk(p) && p[0] == src && p.last() == state_of(k as int, wi) && walk_cost(p) == dist@[k as int]->0;
                    assert(self.is_route(p0, (src.0, src.1), src.2, endi));
                    assert forall|p: Seq<State>| #[trigger] self.is_route(p, (src.0, src.1), src.2, endi) implies walk_cost(p) >= c by {
                        if walk_cost(p) < c {
                            assert forall|k3: int|
                                0 <= k3 < dist@.len() && #[trigger] dist@[k3] is Some && dist@[k3]->0 < c implies self.settled(dist@, k3) by {
                                if fr0.contains((dist@[k3]->0, k3 as usize)) {
                                    let i3 = choose|i3: int| 0 <= i3 < fr0.len() && fr0[i3] == (dist@[k3]->0, k3 as usize);
                                    assert(fr0[j as int].0 <= fr0[i3].0);
                                }
                            }
                            assert(p[0] == src);
                            self.lemma_table_bounds_walks(dist@, src, c as int, p);
                            let kl = index_of(p.last(), wi);
                            self.lemma_walk_in_bounds(p, p.len() - 1);
                            lemma_index_state(wi, hi, p.last());
                            assert(self.at_pos(kl, endi));
                            if fr0.contains((dist@[kl]->0, kl as usize)) {
                                let i3 = choose|i3: int| 0 <= i3 < fr0.len() && fr0[i3] == (dist@[kl]->0, kl as usize);
                                assert(fr0[j as int].0 <= fr0[i3].0);
                            }
                        }
                    }
                }
                return (Some(c), dist);
            }
            self.relax_from(&mut dist, &mut frontier, k, c, Ghost(src));
            proof {
                assert forall|k2: int|
                    0 <= k2 < dist@.len() && #[trigger] dist@[k2] is Some implies frontier@.contains((dist@[k2]->0, k2 as usize))
                        || (self.settled(dist@, k2) && (stop ==> !self.at_pos(k2, endi))) by {
                    if k2 == k {
                    } else if dist@[k2] != dist0[k2] {
                    } else {
                        assert(dist0[k2] is Some);
                        if fr0.contains((dist0[k2]->0, k2 as usize)) {
                            lemma_contains_remove(fr0, j as int, (dist0[k2]->0, k2 as usize));
                            let fr1 = fr0.remove(j as int);
                            let i3 = choose|i3: int| 0 <= i3 < fr1.len() && fr1[i3] == (dist0[k2]->0, k2 as usize);
                            assert(frontier@[i3] == fr1[i3]);
                        } else {
                            lemma_state_index(wi, hi, k2);
                            assert forall|t: State| #[trigger] self.is_move(state_of(k2, wi), t) implies 0 <= index_of(t, wi) < dist0.len() by {
                                lemma_index_state(wi, hi, t);
                            }
                            self.lemma_settled_mono(dist0, dist@, k2);
                        }
                    }
                }
            }
        }
        proof {
            assert forall|k: int| 0 <= k < dist@.len() && #[trigger] dist@[k] is Some implies self.settled(dist@, k) && (stop ==> !self.at_pos(k, endi)) by {
                assert(!frontier@.contains((dist@[k]->0, k as usize)));
            }
            if stop {
                assert forall|p: Seq<State>| #[trigger] self.is_route(p, (src.0, src.1), src.2, endi) implies walk_cost(p) > usize::MAX by {
                    if walk_cost(p) <= usize::MAX {
                        self.lemma_table_bounds_walks(dist@, src, usize::MAX + 1, p);
                        let kl = index_of(p.last(), wi);
                        self.lemma_walk_in_bounds(p, p.len() - 1);
                        lemma_index_state(wi, hi, p.last());
                        assert(self.at_pos(kl, endi));
                    }
                }
            }
        }
        (None, dist)
    }
}

proof fn lemma_walk_concat(m: &Maze, p: Seq<State>, q: Seq<State>)
    requires
        m.is_walk(p),
        m.is_walk(q),
        p.last() == q[0],
    ensures
        m.is_walk(p + q.drop_first()),
        walk_cost(p + q.drop_first()) == walk_cost(p) + walk_cost(q),
        (p + q.drop_first())[0] == p[0],
        (p + q.drop_first()).last() == q.last(),
        (p + q.drop_first()).len() == p.len() + q.len() - 1,
    decreases q.len(),
{
    if q.len() == 1 {
        assert(p + q.drop_first() =~= p);
    } else {
        let q1 = q.drop_last();
        assert(m.is_walk(q1)) by {
            assert forall|i: int| 0 <= i < q1.len() - 1 implies #[trigger] m.is_move(q1[i], q1[i + 1]) by {
                assert(m.is_move(q[i], q[i + 1]));
            }
        }
        lemma_walk_concat(m, p, q1);
        let r1 = p + q1.drop_first();
        assert(p + q.drop_first() =~= r1.push(q.last()));
        let i0 = q.len() - 2;
        assert(m.is_move(q[i0], q[i0 + 1]));
        assert(r1.last() == q[i0]);
        lemma_walk_push(m, r1, q.last());
    }
}

/// Splitting a walk at `j` into a prefix and a suffix that share state `j`.
proof fn lemma_walk_split(m: &Maze, p: Seq<State>, j: int)
    requires
        m.is_walk(p),
        0 <= j < p.len(),
    ensures
        m.is_walk(p.subrange(0, j + 1)),
        m.is_walk(p.subrange(j, p.len() as int)),
        walk_cost(p) == walk_cost(p.subrange(0, j + 1)) + walk_cost(p.subrange(j, p.len() as int)),
{
    let a = p.subrange(0, j + 1);
    let b = p.subrange(j, p.len() as int);
    assert(m.is_walk(a)) by {
        assert forall|i: int| 0 <= i < a.len() - 1 implies #[trigger] m.is_move(a[i], a[i + 1]) by {
            assert(m.is_move(p[i], p[i + 1]));
        }
    }
    assert(m.is_walk(b)) by {
        assert forall|i: int| 0 <= i < b.len() - 1 implies #[trigger] m.is_move(b[i], b[i + 1]) by {
            assert(m.is_move(p[j + i], p[j + i + 1]));
        }
    }
    lemma_walk_concat(m, a, b);
    assert(a + b.drop_first() =~= p);
}

pub open spec fn count_false(s: Seq<bool>) -> nat
    decreases s.len(),
{
    if s.len() == 0 {
        0
    } else {
        count_false(s.drop_last()) + if s.last() {
            0nat
        } else {
            1nat
        }
    }
}

pub proof fn lemma_count_false_set(s: Seq<bool>, i: int)
    requires
        0 <= i < s.len(),
        !s[i],
    ensures
        count_false(s.update(i, true)) + 1 == count_false(s),
    decreases s.len(),
{
    if i == s.len() - 1 {
        assert(s.update(i, true).drop_last() =~= s.drop_last());
    } else {
        assert(s.update(i, true).drop_last() =~= s.drop_last().update(i, true));
        lemma_count_false_set(s.drop_last(), i);
    }
}

impl Maze {
    /// Moving from `s` to `t` keeps to the table's least costs.
    pub open spec fn tight(&self, dist: Seq<Option<usize>>, s: State, t: State) -> bool {
        &&& self.is_move(s, t)
        &&& dist[index_of(s, self.width as int)] is Some
        &&& dist[index_of(t, self.width as int)] is Some
        &&& dist[index_of(s, self.width as int)]->0 + move_cost(s, t) == dist[index_of(t, self.width as int)]->0
    }

    /// From state `k` a walk of cost `best - dist[k]` reaches `end`.
    pub open spec fn leads_to_end(&self, dist: Seq<Option<usize>>, k: int, end: (int, int), best: int) -> bool {
        exists|q: Seq<State>|
            #[trigger] self.is_walk(q) && q[0] == state_of(k, self.width as int) && q.last().0 == end.0
                && q.last().1 == end.1 && dist[k]->0 + walk_cost(q) == best
    }

    /// Cells that lie on some least-cost route from `start` to `end`.
    pub open spec fn optimal_cells(&self, start: (int, int), dir: int, end: (int, int)) -> Set<(int, int)> {
        Set::new(
            |c: (int, int)|
                exists|p: Seq<State>, i: int|
                    #[trigger] self.is_route(p, start, dir, end) && Some(walk_cost(p)) == self.least_cost(
                        start,
                        dir,
                        end,
                    ) && 0 <= i < p.len() && c == (#[trigger] p[i].0, p[i].1),
        )
    }
}

impl Maze {
    proof fn lemma_least_unique(&self, start: (int, int), dir: int, end: (int, int), c: int)
        requires
            self.is_least_cost(start, dir, end, c),
        ensures
            self.least_cost(start, dir, end) == Some(c),
    {
        let c2 = choose|c2: int| self.is_least_cost(start, dir, end, c2);
        let p = choose|p: Seq<State>| #[trigger] self.is_route(p, start, dir, end) && walk_cost(p) == c;
        let p2 = choose|p: Seq<State>| #[trigger] self.is_route(p, start, dir, end) && walk_cost(p) == c2;
        assert(walk_cost(p2) >= c);
        assert(walk_cost(p) >= c2);
    }

    /// Least cost of a route from `start` facing `start_dir` to `end`, where a
    /// route costs at most `usize::MAX`; moving into a wall or out of the grid
    /// is not allowed.
    pub fn shortest_path(&self, start: (isize, isize), start_dir: usize, end: (isize, isize)) -> (r: Option<usize>)
        requires
            self.wf(),
            self.in_bounds(start.0 as int, start.1 as int),
            start_dir < 4,
        ensures
            r matches Some(c) ==> self.least_cost(
                (start.0 as int, start.1 as int),
                start_dir as int,
                (end.0 as int, end.1 as int),
            ) == Some(c as int),
            r is None ==> forall|p: Seq<State>|
                #[trigger] self.is_route(
                    p,
                    (start.0 as int, start.1 as int),
                    start_dir as int,
                    (end.0 as int, end.1 as int),
                ) ==> walk_cost(p) > usize::MAX,
    {
        let sk = self.state_index(start.0 as usize, start.1 as usize, start_dir);
        let (r, _) = self.explore(sk, end, true);
        proof {
            if let Some(c) = r {
                self.lemma_least_unique((start.0 as int, start.1 as int), start_dir as int, (end.0 as int, end.1 as int), c as int);
            }
        }
        r
    }

    /// Table index of state `(x, y, d)`.
    fn state_index(&self, x: usize, y: usize, d: usize) -> (k: usize)
        requires
            self.wf(),
            self.in_bounds(x as int, y as int),
            d < 4,
        ensures
            k == index_of((x as int, y as int, d as int), self.width as int),
            k < self.n_states(),
            state_of(k as int, self.width as int) == (x as int, y as int, d as int),
    {
        proof {
            lemma_index_state(self.width as int, self.height as int, (x as int, y as int, d as int));
            lemma_cell_index(self.width as int, self.height as int, x as int, y as int);
            assert((y * self.width + x) * 4 + d < self.n_states()) by (nonlinear_arith)
                requires
                    0 <= y * self.width + x < self.width * self.height,
                    d < 4,
                    self.n_states() == self.width * self.height * 4,
            ;
        }
        (y * self.width + x) * 4 + d
    }
}

impl Maze {
    /// Under a complete table, the table holds the exact cost of each prefix
    /// of a least-cost route.
    proof fn lemma_prefix_exact(
        &self,
        dist: Seq<Option<usize>>,
        src: State,
        end: (int, int),
        best: int,
        p: Seq<State>,
        j: int,
    )
        requires
            self.wf(),
            dist.len() == self.n_states(),
            self.in_bounds(src.0, src.1),
            0 <= src.2 < 4,
            dist[index_of(src, self.width as int)] == Some(0usize),
            self.sound(dist, src),
            forall|k: int| 0 <= k < dist.len() && #[trigger] dist[k] is Some ==> self.settled(dist, k),
            self.is_least_cost((src.0, src.1), src.2, end, best),
            self.is_route(p, (src.0, src.1), src.2, end),
            walk_cost(p) == best,
            best <= usize::MAX,
            0 <= j < p.len(),
        ensures
            dist[index_of(p[j], self.width as int)] is Some,
            dist[index_of(p[j], self.width as int)]->0 == walk_cost(p.subrange(0, j + 1)),
    {
        let wi = self.width as int;
        lemma_walk_split(self, p, j);
        let a = p.subrange(0, j + 1);
        let b = p.subrange(j, p.len() as int);
        lemma_walk_cost_nonneg(b);
        assert(a[0] == src);
        self.lemma_table_bounds_walks(dist, src, usize::MAX + 1, a);
        assert(a.last() == p[j]);
        let k = index_of(p[j], wi);
        self.lemma_walk_in_bounds(p, j);
        lemma_index_state(wi, self.height as int, p[j]);
        if dist[k]->0 < walk_cost(a) {
            let w = choose|w: Seq<State>|
                #[trigger] self.is_walk(w) && w[0] == src && w.last() == state_of(k, wi) && walk_cost(w) == dist[k]->0;
            lemma_walk_concat(self, w, b);
            let r = w + b.drop_first();
            assert(self.is_route(r, (src.0, src.1), src.2, end));
        }
    }

    /// Number of cells that lie on some least-cost route from `start` facing
    /// `start_dir` to `end`, counting each cell once however many routes or
    /// facings pass through it.
    pub fn optimal_tiles(&self, start: (isize, isize), start_dir: usize, end: (isize, isize)) -> (r: Option<usize>)
        requires
            self.wf(),
            self.in_bounds(start.0 as int, start.1 as int),
            start_dir < 4,
        ensures
            r matches Some(n) ==> self.least_cost(
                (start.0 as int, start.1 as int),
                start_dir as int,
                (end.0 as int, end.1 as int),
            ) is Some && n == self.optimal_cells(
                (start.0 as int, start.1 as int),
                start_dir as int,
                (end.0 as int, end.1 as int),
            ).len(),
            r is None ==> forall|p: Seq<State>|
                #[trigger] self.is_route(
                    p,
                    (start.0 as int, start.1 as int),
                    start_dir as int,
                    (end.0 as int, end.1 as int),
                ) ==> walk_cost(p) > usize::MAX,
    {
        let ghost wi = self.width as int;
        let ghost hi = self.height as int;
        let ghost starti = (start.0 as int, start.1 as int);
        let ghost endi = (end.0 as int, end.1 as int);
        let ghost diri = start_dir as int;
        let sk = self.state_index(start.0 as usize, start.1 as usize, start_dir);
        let ghost src = state_of(sk as int, wi);
        let (_, dist) = self.explore(sk, end, false);
        let n = self.width * self.height * 4;
        if end.0 < 0 || end.1 < 0 || end.0 as usize >= self.width || end.1 as usize >= self.height {
            proof {
                assert forall|p: Seq<State>| #[trigger] self.is_route(p, starti, diri, endi) implies walk_cost(p) > usize::MAX by {
                    self.lemma_walk_in_bounds(p, p.len() - 1);
                }
            }
            return None;
        }
        let ex = end.0 as usize;
        let ey = end.1 as usize;
        let mut best: Option<usize> = None;
        let mut d: usize = 0;
        while d < 4
            invariant
                self.wf(),
                d <= 4,
                wi == self.width,
                self.in_bounds(ex as int, ey as int),
                dist@.len() == self.n_states(),
                forall|d2: int|
                    0 <= d2 < d && (#[trigger] dist@[index_of((ex as int, ey as int, d2), wi)]) is Some ==> best is Some
                        && best->0 <= dist@[index_of((ex as int, ey as int, d2), wi)]->0,
                best matches Some(b) ==> exists|d2: int|
                    0 <= d2 < d && #[trigger] dist@[index_of((ex as int, ey as int, d2), wi)] == Some(b),
            decreases 4 - d,
        {
            let kd = self.state_index(ex, ey, d);
            match dist[kd] {
                Some(v) => {
                    let improve = match best {
                        Some(b) => v < b,
                        None => true,
                    };
                    if improve {
                        best = Some(v);
                    }
                },
                None => {},
            }
            d += 1;
        }
        let best = match best {
            Some(b) => b,
            None => {
                proof {
                    assert forall|p: Seq<State>| #[trigger] self.is_route(p, starti, diri, endi) implies walk_cost(p) > usize::MAX by {
                        if walk_cost(p) <= usize::MAX {
                            self.lemma_walk_in_bounds(p, p.len() - 1);
                            self.lemma_table_bounds_walks(dist@, src, usize::MAX + 1, p);
                            assert(p.last() == (ex as int, ey as int, p.last().2));
                        }
                    }
                }
                return None;
            },
        };
        proof {
            let d2 = choose|d2: int| 0 <= d2 < 4 && #[trigger] dist@[index_of((ex as int, ey as int, d2), wi)] == Some(best);
            let ke = index_of((ex as int, ey as int, d2), wi);
            lemma_index_state(wi, hi, (ex as int, ey as int, d2));
            let p0 = choose|p: Seq<State>| #[trigger] self.is_walk(p) && p[0] == src && p.last() == state_of(ke, wi) && walk_cost(p) == dist@[ke]->0;
            assert(self.is_route(p0, starti, diri, endi));
            assert forall|p: Seq<State>| #[trigger] self.is_route(p, starti, diri, endi) implies walk_cost(p) >= best by {
                if walk_cost(p) <= usize::MAX {
                    self.lemma_walk_in_bounds(p, p.len() - 1);
                    self.lemma_table_bounds_walks(dist@, src, usize::MAX + 1, p);
                    assert(p.last() == (ex as int, ey as int, p.last().2));
                }
            }
            assert(self.is_least_cost(starti, diri, endi, best as int));
            self.lemma_least_unique(starti, diri, endi, best as int);
        }
        let marked = self.mark_optimal(&dist, ex, ey, best, Ghost(src));
        let count = self.count_marked_cells(&marked);
        proof {
            let sset = self.marked_cells(marked@);
            let oset = self.optimal_cells(starti, diri, endi);
            assert forall|c: (int, int)| oset.contains(c) implies sset.contains(c) by {
                let (p, i) = choose|p: Seq<State>, i: int|
                    #[trigger] self.is_route(p, starti, diri, endi) && Some(walk_cost(p)) == self.least_cost(starti, diri, endi)
                        && 0 <= i < p.len() && c == (#[trigger] p[i].0, p[i].1);
                self.lemma_route_marked(&dist, &marked, src, endi, best as int, p, i);
                self.lemma_walk_in_bounds(p, i);
                assert(p[i] == (c.0, c.1, p[i].2));
            }
            assert forall|c: (int, int)| sset.contains(c) implies oset.contains(c) by {
                let d2 = choose|d2: int| 0 <= d2 < 4 && #[trigger] marked@[index_of((c.0, c.1, d2), wi)];
                let k = index_of((c.0, c.1, d2), wi);
                lemma_index_state(wi, hi, (c.0, c.1, d2));
                let q = choose|q: Seq<State>|
                    #[trigger] self.is_walk(q) && q[0] == state_of(k, wi) && q.last().0 == endi.0
                        && q.last().1 == endi.1 && dist@[k]->0 + walk_cost(q) == best;
                let w = choose|w: Seq<State>|
                    #[trigger] self.is_walk(w) && w[0] == src && w.last() == state_of(k, wi) && walk_cost(w) == dist@[k]->0;
                lemma_walk_concat(self, w, q);
                let r = w + q.drop_first();
                assert(self.is_route(r, starti, diri, endi));
                let i = w.len() - 1;
                assert(r[i] == w[i]);
                assert(c == (r[i].0, r[i].1));
            }
            assert(oset =~= sset);
        }
        Some(count)
    }
}

impl Maze {
    /// Cells of the grid with a marked state at some facing.
    pub open spec fn marked_cells(&self, marked: Seq<bool>) -> Set<(int, int)> {
        Set::new(
            |c: (int, int)|
                self.in_bounds(c.0, c.1) && exists|d2: int|
                    0 <= d2 < 4 && #[trigger] marked[index_of((c.0, c.1, d2), self.width as int)],
        )
    }

    /// Marked cells among the first `upto` cells, row after row.
    pub open spec fn marked_cells_below(&self, marked: Seq<bool>, upto: int) -> Set<(int, int)> {
        Set::new(
            |c: (int, int)|
                self.in_bounds(c.0, c.1) && c.1 * self.width + c.0 < upto && exists|d2: int|
                    0 <= d2 < 4 && #[trigger] marked[index_of((c.0, c.1, d2), self.width as int)],
        )
    }

    /// Counts the cells that have a marked state at some facing.
    fn count_marked_cells(&self, marked: &Vec<bool>) -> (count: usize)
        requires
            self.wf(),
            marked@.len() == self.n_states(),
        ensures
            count == self.marked_cells(marked@).len(),
            self.marked_cells(marked@).finite(),
    {
        let ghost wi = self.width as int;
        let cells = self.width * self.height;
        let mut count: usize = 0;
        let mut c: usize = 0;
        assert(self.marked_cells_below(marked@, 0) =~= Set::<(int, int)>::empty());
        while c < cells
            invariant
                self.wf(),
                wi == self.width,
                cells == self.width * self.height,
                marked@.len() == self.n_states(),
                c <= cells,
                self.marked_cells_below(marked@, c as int).finite(),
                count == self.marked_cells_below(marked@, c as int).len(),
                count <= c,
            decreases cells - c,
        {
            let x = c % self.width;
            let y = c / self.width;
            proof {
                vstd::arithmetic::div_mod::lemma_fundamental_div_mod(c as int, wi);
                assert(y < self.height) by (nonlinear_arith)
                    requires c == self.width * y + x, c < self.width * self.height, x >= 0;
                assert(y * self.width + x == c) by (nonlinear_arith)
                    requires c == self.width * y + x;
            }
            let k0 = self.state_index(x, y, 0);
            let k1 = self.state_index(x, y, 1);
            let k2 = self.state_index(x, y, 2);
            let k3 = self.state_index(x, y, 3);
            let any = marked[k0] || marked[k1] || marked[k2] || marked[k3];
            let ghost before = self.marked_cells_below(marked@, c as int);
            let ghost after = self.marked_cells_below(marked@, c + 1);
            let ghost cell = (x as int, y as int);
            proof {
                assert forall|e: (int, int)| self.in_bounds(e.0, e.1) && e.1 * self.width + e.0 == c implies e == cell by {
                    lemma_fundamental_div_mod_converse(c as int, wi, e.1, e.0);
                }
            }
            if any {
                proof {
                    assert(after =~= before.insert(cell));
                    assert(!before.contains(cell));
                }
                count += 1;
            } else {
                proof {
                    assert(after =~= before);
                }
            }
            c += 1;
        }
        proof {
            assert forall|e: (int, int)| self.in_bounds(e.0, e.1) implies e.1 * self.width + e.0 < cells by {
                lemma_cell_index(wi, self.height as int, e.0, e.1);
            }
            assert(self.marked_cells_below(marked@, c as int) =~= self.marked_cells(marked@));
        }
        count
    }

    /// Marks every state from which tight moves lead to a least-cost end state.
    fn mark_optimal(
        &self,
        dist: &Vec<Option<usize>>,
        ex: usize,
        ey: usize,
        best: usize,
        Ghost(src): Ghost<State>,
    ) -> (marked: Vec<bool>)
        requires
            self.wf(),
            dist@.len() == self.n_states(),
            self.in_bounds(ex as int, ey as int),
        ensures
            marked@.len() == self.n_states(),
            forall|k: int|
                0 <= k < marked@.len() && #[trigger] marked@[k] ==> dist@[k] is Some && self.leads_to_end(
                    dist@,
                    k,
                    (ex as int, ey as int),
                    best as int,
                ),
            forall|k: int, s: State|
                0 <= k < marked@.len() && #[trigger] marked@[k] && self.in_bounds(s.0, s.1) && 0 <= s.2 < 4
                    && #[trigger] self.tight(dist@, s, state_of(k, self.width as int)) ==> marked@[index_of(
                    s,
                    self.width as int,
                )],
            forall|d: int|
                0 <= d < 4 && #[trigger] dist@[index_of((ex as int, ey as int, d), self.width as int)] == Some(best)
                    ==> marked@[index_of((ex as int, ey as int, d), self.width as int)],
    {
        let ghost wi = self.width as int;
        let ghost hi = self.height as int;
        let ghost endi = (ex as int, ey as int);
        let n = self.width * self.height * 4;
        let mut marked: Vec<bool> = Vec::new();
        while marked.len() < n
            invariant
                n == self.n_states(),
                marked@.len() <= n,
                forall|i: int| 0 <= i < marked@.len() ==> !#[trigger] marked@[i],
            decreases n - marked@.len(),
        {
            marked.push(false);
        }
        let mut stack: Vec<usize> = Vec::new();
        let mut d: usize = 0;
        while d < 4
            invariant
                self.wf(),
                wi == self.width,
                hi == self.height,
                endi == (ex as int, ey as int),
                self.in_bounds(ex as int, ey as int),
                d <= 4,
                dist@.len() == self.n_states(),
                marked@.len() == self.n_states(),
                forall|i: int| 0 <= i < stack@.len() ==> (#[trigger] stack@[i]) < marked@.len() && marked@[stack@[i] as int],
                forall|k: int| 0 <= k < marked@.len() && #[trigger] marked@[k] ==> dist@[k] is Some && self.leads_to_end(dist@, k, endi, best as int),
                forall|k: int| 0 <= k < marked@.len() && #[trigger] marked@[k] ==> stack@.contains(k as usize),
                forall|d2: int| 0 <= d2 < d && #[trigger] dist@[index_of((ex as int, ey as int, d2), wi)] == Some(best) ==> marked@[index_of((ex as int, ey as int, d2), wi)],
            decreases 4 - d,
        {
            let kd = self.state_index(ex, ey, d);
            if dist[kd] == Some(best) && !marked[kd] {
                let ghost m0 = marked@;
                let ghost s0 = stack@;
                marked.set(kd, true);
                stack.push(kd);
                proof {
                    let q = seq![state_of(kd as int, wi)];
                    assert(self.is_walk(q));
                    assert(self.leads_to_end(dist@, kd as int, endi, best as int));
                    assert forall|k: int| 0 <= k < marked@.len() && #[trigger] marked@[k] implies stack@.contains(k as usize) by {
                        if k != kd {
                            assert(m0[k]);
                            let i = choose|i: int| 0 <= i < s0.len() && s0[i] == k as usize;
                            assert(stack@[i] == s0[i]);
                        } else {
                            assert(stack@[s0.len() as int] == kd);
                        }
                    }
                    assert forall|i: int| 0 <= i < stack@.len() implies (#[trigger] stack@[i]) < marked@.len() && marked@[stack@[i] as int] by {
                        if i < s0.len() {
                            assert(stack@[i] == s0[i]);
                        }
                    }
                    assert forall|d2: int| 0 <= d2 < d + 1 && #[trigger] dist@[index_of((ex as int, ey as int, d2), wi)] == Some(best) implies marked@[index_of((ex as int, ey as int, d2), wi)] by {
                        lemma_index_state(wi, hi, (ex as int, ey as int, d2));
                    }
                }
            }
            d += 1;
        }
        while stack.len() > 0
            invariant
                self.wf(),
                wi == self.width,
                hi == self.height,
                endi == (ex as int, ey as int),
                self.in_bounds(ex as int, ey as int),
                dist@.len() == self.n_states(),
                marked@.len() == self.n_states(),
                forall|i: int| 0 <= i < stack@.len() ==> (#[trigger] stack@[i]) < marked@.len() && marked@[stack@[i] as int],
                forall|k: int| 0 <= k < marked@.len() && #[trigger] marked@[k] ==> dist@[k] is Some && self.leads_to_end(dist@, k, endi, best as int),
                forall|k: int, s: State|
                    0 <= k < marked@.len() && #[trigger] marked@[k] && !stack@.contains(k as usize) && self.in_bounds(s.0, s.1) && 0 <= s.2 < 4
                        && #[trigger] self.tight(dist@, s, state_of(k, wi)) ==> marked@[index_of(s, wi)],
                forall|d2: int| 0 <= d2 < 4 && #[trigger] dist@[index_of((ex as int, ey as int, d2), wi)] == Some(best) ==> marked@[index_of((ex as int, ey as int, d2), wi)],
            decreases count_false(marked@), stack@.len(),
        {
            let ghost pre = stack@;
            let kt = match stack.pop() {
                Some(v) => v,
                None => {
                    assert(false);
                    0
                },
            };
            proof {
                assert(pre =~= stack@.push(kt));
                assert(pre[pre.len() - 1] == kt);
            }
            self.mark_predecessors(dist, &mut marked, &mut stack, kt, ex, ey, best);
        }
        marked
    }
}

impl Maze {
    /// Marks and stacks each unmarked state with a tight move into `kt`.
    fn mark_predecessors(
        &self,
        dist: &Vec<Option<usize>>,
        marked: &mut Vec<bool>,
        stack: &mut Vec<usize>,
        kt: usize,
        ex: usize,
        ey: usize,
        best: usize,
    )
        requires
            self.wf(),
            self.in_bounds(ex as int, ey as int),
            dist@.len() == self.n_states(),
            old(marked)@.len() == self.n_states(),
            kt < self.n_states(),
            old(marked)@[kt as int],
            forall|i: int| 0 <= i < old(stack)@.len() ==> (#[trigger] old(stack)@[i]) < old(marked)@.len() && old(marked)@[old(stack)@[i] as int],
            forall|k: int| 0 <= k < old(marked)@.len() && #[trigger] old(marked)@[k] ==> dist@[k] is Some && self.leads_to_end(dist@, k, (ex as int, ey as int), best as int),
            forall|k: int, s: State|
                0 <= k < old(marked)@.len() && #[trigger] old(marked)@[k] && !old(stack)@.push(kt).contains(k as usize) && self.in_bounds(s.0, s.1) && 0 <= s.2 < 4
                    && #[trigger] self.tight(dist@, s, state_of(k, self.width as int)) ==> old(marked)@[index_of(s, self.width as int)],
            forall|d2: int| 0 <= d2 < 4 && #[trigger] dist@[index_of((ex as int, ey as int, d2), self.width as int)] == Some(best) ==> old(marked)@[index_of((ex as int, ey as int, d2), self.width as int)],
        ensures
            final(marked)@.len() == self.n_states(),
            forall|i: int| 0 <= i < final(stack)@.len() ==> (#[trigger] final(stack)@[i]) < final(marked)@.len() && final(marked)@[final(stack)@[i] as int],
            forall|k: int| 0 <= k < final(marked)@.len() && #[trigger] final(marked)@[k] ==> dist@[k] is Some && self.leads_to_end(dist@, k, (ex as int, ey as int), best as int),
            forall|k: int, s: State|
                0 <= k < final(marked)@.len() && #[trigger] final(marked)@[k] && !final(stack)@.contains(k as usize) && self.in_bounds(s.0, s.1) && 0 <= s.2 < 4
                    && #[trigger] self.tight(dist@, s, state_of(k, self.width as int)) ==> final(marked)@[index_of(s, self.width as int)],
            forall|d2: int| 0 <= d2 < 4 && #[trigger] dist@[index_of((ex as int, ey as int, d2), self.width as int)] == Some(best) ==> final(marked)@[index_of((ex as int, ey as int, d2), self.width as int)],
            count_false(final(marked)@) < count_false(old(marked)@) || (final(marked)@ == old(marked)@ && final(stack)@ == old(stack)@),
    {
        let ghost wi = self.width as int;
        let ghost hi = self.height as int;
        let ghost endi = (ex as int, ey as int);
        let ghost m0 = marked@;
        let ghost s0 = stack@;
        proof {
            lemma_state_index(wi, hi, kt as int);
        }
        let ghost t = state_of(kt as int, wi);
        let w = self.width;
        let cell = kt / 4;
        let tx = cell % w;
        let ty = cell / w;
        let td = kt % 4;
        assert(t == (tx as int, ty as int, td as int));
        let cur = match dist[kt] {
            Some(v) => v,
            None => {
                assert(false);
                0
            },
        };
        assert(self.width <= self.tiles@.len() && self.height <= self.tiles@.len()) by (nonlinear_arith)
            requires
                self.tiles@.len() == self.width * self.height,
                self.width >= 1,
                self.height >= 1,
        ;
        let open = match self.get_tile((tx as isize, ty as isize)) {
            Some(c) => c != '#',
            None => false,
        };
        let (dx, dy) = facing_offset(td);
        let px = tx as isize - dx;
        let py = ty as isize - dy;
        if !open || px < 0 || py < 0 || px as usize >= self.width || py as usize >= self.height {
            proof {
                assert forall|k: int, s: State|
                    0 <= k < marked@.len() && #[trigger] marked@[k] && !stack@.contains(k as usize) && self.in_bounds(s.0, s.1) && 0 <= s.2 < 4
                        && #[trigger] self.tight(dist@, s, state_of(k, wi)) implies marked@[index_of(s, wi)] by {
                    if k != kt as int {
                        assert(!s0.push(kt).contains(k as usize)) by {
                            if s0.push(kt).contains(k as usize) {
                                let i = choose|i: int| 0 <= i < s0.push(kt).len() && s0.push(kt)[i] == k as usize;
                                assert(i < s0.len());
                            }
                        }
                    }
                }
            }
            return;
        }
        let pxu = px as usize;
        let pyu = py as usize;
        proof {
            assert forall|d2: int| 0 <= d2 < 4 && #[trigger] dist@[index_of((ex as int, ey as int, d2), wi)] == Some(best) implies marked@[index_of((ex as int, ey as int, d2), wi)] by {
                lemma_index_state(wi, hi, (ex as int, ey as int, d2));
            }
        }
        let mut sd: usize = 0;
        while sd < 4
            invariant
                self.wf(),
                wi == self.width,
                hi == self.height,
                endi == (ex as int, ey as int),
                self.in_bounds(ex as int, ey as int),
                self.in_bounds(pxu as int, pyu as int),
                t == state_of(kt as int, wi),
                t == (tx as int, ty as int, td as int),
                self.is_open(t.0, t.1),
                index_of(t, wi) == kt as int,
                forall|d2: int| 0 <= d2 < 4 && #[trigger] dist@[index_of((ex as int, ey as int, d2), wi)] == Some(best) ==> marked@[index_of((ex as int, ey as int, d2), wi)],
                pxu == t.0 - step_x(t.2),
                pyu == t.1 - step_y(t.2),
                td < 4,
                kt < self.n_states(),
                dist@.len() == self.n_states(),
                dist@[kt as int] == Some(cur),
                sd <= 4,
                marked@.len() == self.n_states(),
                m0 == old(marked)@,
                s0 == old(stack)@,
                m0.len() == self.n_states(),
                marked@[kt as int],
                stack@.len() >= s0.len(),
                forall|i: int| 0 <= i < s0.len() ==> #[trigger] stack@[i] == s0[i],
                forall|i: int| 0 <= i < m0.len() && #[trigger] m0[i] ==> marked@[i],
                forall|i: int| 0 <= i < stack@.len() ==> (#[trigger] stack@[i]) < marked@.len() && marked@[stack@[i] as int],
                forall|k: int| 0 <= k < marked@.len() && #[trigger] marked@[k] ==> dist@[k] is Some && self.leads_to_end(dist@, k, endi, best as int),
                forall|k: int| 0 <= k < marked@.len() && #[trigger] marked@[k] && !m0[k] ==> stack@.contains(k as usize),
                forall|s: State|
                    self.in_bounds(s.0, s.1) && 0 <= s.2 < sd && #[trigger] self.tight(dist@, s, t) ==> marked@[index_of(s, wi)],
                count_false(marked@) < count_false(m0) || (marked@ == m0 && stack@ == s0),
            decreases 4 - sd,
        {
            let ks = self.state_index(pxu, pyu, sd);
            let ghost sst: State = (pxu as int, pyu as int, sd as int);
            let step = 1 + Self::rotation_cost(sd, td);
            let is_tight = match dist[ks] {
                Some(ds) => ds <= usize::MAX - step && ds + step == cur,
                None => false,
            };
            if is_tight && !marked[ks] {
                let ghost mb = marked@;
                let ghost sb = stack@;
                proof {
                    assert(self.is_move(sst, t));
                    let q = choose|q: Seq<State>|
                        #[trigger] self.is_walk(q) && q[0] == state_of(kt as int, wi) && q.last().0 == endi.0
                            && q.last().1 == endi.1 && dist@[kt as int]->0 + walk_cost(q) == best;
                    let e = seq![sst, t];
                    assert(e.drop_last() =~= seq![sst]);
                    assert(self.is_walk(e)) by {
                        assert forall|i: int| 0 <= i < e.len() - 1 implies #[trigger] self.is_move(e[i], e[i + 1]) by {
                            assert(i == 0);
                        }
                    }
                    assert(walk_cost(seq![sst]) == 0);
                    assert(walk_cost(e) == walk_cost(e.drop_last()) + move_cost(e[0], e[1]));
                    assert(walk_cost(e) == move_cost(sst, t));
                    lemma_walk_concat(self, e, q);
                    let q2 = e + q.drop_first();
                    assert(q2[0] == state_of(ks as int, wi));
                    assert(dist@[ks as int]->0 + walk_cost(q2) == best);
                    assert(self.is_walk(q2) && q2[0] == state_of(ks as int, wi) && q2.last().0 == endi.0
                        && q2.last().1 == endi.1 && dist@[ks as int]->0 + walk_cost(q2) == best);
                    assert(self.leads_to_end(dist@, ks as int, endi, best as int));
                    lemma_count_false_set(mb, ks as int);
                }
                marked.set(ks, true);
                stack.push(ks);
                proof {
                    assert(marked@ == mb.update(ks as int, true));
                    assert forall|i: int| 0 <= i < m0.len() && #[trigger] m0[i] implies marked@[i] by {
                        if i != ks as int {
                            assert(mb[i]);
                            assert(marked@[i] == mb[i]);
                        }
                    }
                    assert(stack@[sb.len() as int] == ks);
                    assert forall|i: int| 0 <= i < s0.len() implies #[trigger] stack@[i] == s0[i] by {
                        assert(stack@[i] == sb[i]);
                    }
                    assert forall|i: int| 0 <= i < stack@.len() implies (#[trigger] stack@[i]) < marked@.len() && marked@[stack@[i] as int] by {
                        if i < sb.len() {
                            assert(stack@[i] == sb[i]);
                        }
                    }
                    assert forall|k: int| 0 <= k < marked@.len() && #[trigger] marked@[k] && !m0[k] implies stack@.contains(k as usize) by {
                        if k != ks as int {
                            assert(mb[k]);
                            let i = choose|i: int| 0 <= i < sb.len() && sb[i] == k as usize;
                            assert(stack@[i] == sb[i]);
                        }
                    }
                    assert forall|s: State|
                        self.in_bounds(s.0, s.1) && 0 <= s.2 < sd + 1 && #[trigger] self.tight(dist@, s, t) implies marked@[index_of(s, wi)] by {
                        if s.2 == sd {
                            assert(s == sst);
                        }
                    }
                    assert forall|d2: int| 0 <= d2 < 4 && #[trigger] dist@[index_of((ex as int, ey as int, d2), wi)] == Some(best) implies marked@[index_of((ex as int, ey as int, d2), wi)] by {
                        lemma_index_state(wi, hi, (ex as int, ey as int, d2));
                        assert(mb[index_of((ex as int, ey as int, d2), wi)]);
                    }
                }
            } else {
                proof {
                    assert(index_of(sst, wi) == ks);
                    assert(move_cost(sst, t) == step);
                    assert forall|s: State|
                        self.in_bounds(s.0, s.1) && 0 <= s.2 < sd + 1 && #[trigger] self.tight(dist@, s, t) implies marked@[index_of(s, wi)] by {
                        if s.2 == sd {
                            assert(s == sst);
                            assert(dist@[ks as int] is Some);
                        }
                    }
                }
            }
            sd += 1;
        }
        proof {
            assert forall|k: int, s: State|
                0 <= k < marked@.len() && #[trigger] marked@[k] && !stack@.contains(k as usize) && self.in_bounds(s.0, s.1) && 0 <= s.2 < 4
                    && #[trigger] self.tight(dist@, s, state_of(k, wi)) implies marked@[index_of(s, wi)] by {
                if k == kt as int {
                    assert(state_of(k, wi) == t);
                    assert(0 <= s.2 < sd);
                } else {
                    if !m0[k] {
                        assert(stack@.contains(k as usize));
                    } else {
                        assert(!s0.push(kt).contains(k as usize)) by {
                            if s0.push(kt).contains(k as usize) {
                                let i = choose|i: int| 0 <= i < s0.push(kt).len() && s0.push(kt)[i] == k as usize;
                                assert(i < s0.len());
                                assert(stack@[i] == s0[i]);
                            }
                        }
                        lemma_index_state(wi, hi, s);
                        assert(m0[index_of(s, wi)]);
                    }
                }
            }
        }
    }

    /// Every state of a least-cost route is marked.
    proof fn lemma_route_marked(
        &self,
        dist: &Vec<Option<usize>>,
        marked: &Vec<bool>,
        src: State,
        end: (int, int),
        best: int,
        p: Seq<State>,
        i: int,
    )
        requires
            self.wf(),
            dist@.len() == self.n_states(),
            marked@.len() == self.n_states(),
            self.in_bounds(src.0, src.1),
            0 <= src.2 < 4,
            self.in_bounds(end.0, end.1),
            dist@[index_of(src, self.width as int)] == Some(0usize),
            self.sound(dist@, src),
            forall|k: int| 0 <= k < dist@.len() && #[trigger] dist@[k] is Some ==> self.settled(dist@, k),
            self.is_least_cost((src.0, src.1), src.2, end, best),
            best <= usize::MAX,
            forall|k: int, s: State|
                0 <= k < marked@.len() && #[trigger] marked@[k] && self.in_bounds(s.0, s.1) && 0 <= s.2 < 4
                    && #[trigger] self.tight(dist@, s, state_of(k, self.width as int)) ==> marked@[index_of(s, self.width as int)],
            forall|d: int|
                0 <= d < 4 && #[trigger] dist@[index_of((end.0, end.1, d), self.width as int)] == Some(best as usize)
                    ==> marked@[index_of((end.0, end.1, d), self.width as int)],
            self.is_route(p, (src.0, src.1), src.2, end),
            Some(walk_cost(p)) == self.least_cost((src.0, src.1), src.2, end),
            0 <= i < p.len(),
        ensures
            marked@[index_of(p[i], self.width as int)],
        decreases p.len() - i,
    {
        let wi = self.width as int;
        let hi = self.height as int;
        self.lemma_least_unique((src.0, src.1), src.2, end, best);
        self.lemma_prefix_exact(dist@, src, end, best, p, i);
        self.lemma_walk_in_bounds(p, i);
        if i == p.len() - 1 {
            assert(p[i] == (end.0, end.1, p[i].2));
            assert(p.subrange(0, i + 1) =~= p);
        } else {
            self.lemma_route_marked(dist, marked, src, end, best, p, i + 1);
            self.lemma_prefix_exact(dist@, src, end, best, p, i + 1);
            self.lemma_walk_in_bounds(p, i + 1);
            lemma_index_state(wi, hi, p[i + 1]);
            assert(self.is_move(p[i], p[i + 1]));
            assert(p.subrange(0, i + 2).drop_last() =~= p.subrange(0, i + 1));
            assert(self.tight(dist@, p[i], state_of(index_of(p[i + 1], wi), wi)));
        }
    }
}

/// Positions, row after row, of the cells among the first `n` that hold `c`.
pub open spec fn positions_of(tiles: Seq<char>, w: int, c: char, n: int) -> Seq<(isize, isize)>
    decreases n,
{
    if n <= 0 {
        Seq::empty()
    } else if tiles[n - 1] == c {
        positions_of(tiles, w, c, n - 1).push((((n - 1) % w) as isize, ((n - 1) / w) as isize))
    } else {
        positions_of(tiles, w, c, n - 1)
    }
}

/// Why a puzzle could not be solved.
#[derive(PartialEq, Eq, Structural, Debug, Clone, Copy)]
pub enum PuzzleError {
    /// The text is not a rectangular grid.
    Parse,
    /// The grid has no start or no end marker.
    MissingMarker,
    /// No route leads from the start to the end.
    Unreachable,
}

impl Maze {
    /// Every position holding `c`, row after row.
    pub fn find(&self, c: char) -> (r: Vec<(isize, isize)>)
        requires
            self.wf(),
        ensures
            r@ == positions_of(self.tiles@, self.width as int, c, self.tiles@.len() as int),
            forall|i: int| 0 <= i < r@.len() ==> self.in_bounds((#[trigger] r@[i]).0 as int, r@[i].1 as int)
                && self.tile_spec(r@[i].0 as int, r@[i].1 as int) == Some(c),
    {
        let mut out: Vec<(isize, isize)> = Vec::new();
        let mut k: usize = 0;
        let ghost wi = self.width as int;
        while k < self.tiles.len()
            invariant
                self.wf(),
                wi == self.width,
                k <= self.tiles@.len(),
                out@ == positions_of(self.tiles@, wi, c, k as int),
                forall|i: int| 0 <= i < out@.len() ==> self.in_bounds((#[trigger] out@[i]).0 as int, out@[i].1 as int)
                    && self.tile_spec(out@[i].0 as int, out@[i].1 as int) == Some(c),
            decreases self.tiles@.len() - k,
        {
            if self.tiles[k] == c {
                let x = k % self.width;
                let y = k / self.width;
                proof {
                    vstd::arithmetic::div_mod::lemma_fundamental_div_mod(k as int, wi);
                    assert(y < self.height) by (nonlinear_arith)
                        requires k == self.width * y + x, k < self.width * self.height, x >= 0;
                    assert(y * self.width + x == k) by (nonlinear_arith)
                        requires k == self.width * y + x;
                    assert(self.width <= self.tiles@.len() && self.height <= self.tiles@.len()) by (nonlinear_arith)
                        requires
                            self.tiles@.len() == self.width * self.height,
                            self.width >= 1,
                            self.height >= 1,
                    ;
                }
                let ghost before = out@;
                out.push((x as isize, y as isize));
                proof {
                    assert forall|i: int| 0 <= i < out@.len() implies self.in_bounds((#[trigger] out@[i]).0 as int, out@[i].1 as int)
                        && self.tile_spec(out@[i].0 as int, out@[i].1 as int) == Some(c) by {
                        if i < before.len() {
                            assert(out@[i] == before[i]);
                        }
                    }
                }
            }
            k += 1;
        }
        out
    }
}

/// The least cost and the number of cells on least-cost routes for a maze
/// text, from its first `S` facing east to its first `E`.
pub fn solution(input: &str) -> (r: Result<(usize, usize), PuzzleError>)
    requires
        input@.len() * 4 < usize::MAX,
    ensures
        r == Err::<(usize, usize), PuzzleError>(PuzzleError::Parse) <==> !exists|w: int, h: int| grid_shape(input@, w, h),
        r matches Ok((c, n)) ==> exists|m: Maze|
            #![trigger m.wf()]
            m.wf() && grid_shape(input@, m.width as int, m.height as int)
                && cells_match(m.tiles@, input@, m.width as int, m.height as int) && {
                let starts = positions_of(m.tiles@, m.width as int, 'S', m.tiles@.len() as int);
                let ends = positions_of(m.tiles@, m.width as int, 'E', m.tiles@.len() as int);
                let st = (starts[0].0 as int, starts[0].1 as int);
                let en = (ends[0].0 as int, ends[0].1 as int);
                &&& starts.len() > 0
                &&& ends.len() > 0
                &&& m.least_cost(st, EAST as int, en) == Some(c as int)
                &&& n == m.optimal_cells(st, EAST as int, en).len()
            },
        r == Err::<(usize, usize), PuzzleError>(PuzzleError::MissingMarker) ==> exists|m: Maze|
            #![trigger m.wf()]
            m.wf() && grid_shape(input@, m.width as int, m.height as int)
                && cells_match(m.tiles@, input@, m.width as int, m.height as int) && (positions_of(
                m.tiles@,
                m.width as int,
                'S',
                m.tiles@.len() as int,
            ).len() == 0 || positions_of(m.tiles@, m.width as int, 'E', m.tiles@.len() as int).len() == 0),
        r == Err::<(usize, usize), PuzzleError>(PuzzleError::Unreachable) ==> exists|m: Maze|
            #![trigger m.wf()]
            m.wf() && grid_shape(input@, m.width as int, m.height as int)
                && cells_match(m.tiles@, input@, m.width as int, m.height as int) && {
                let starts = positions_of(m.tiles@, m.width as int, 'S', m.tiles@.len() as int);
                let ends = positions_of(m.tiles@, m.width as int, 'E', m.tiles@.len() as int);
                &&& starts.len() > 0
                &&& ends.len() > 0
                &&& forall|p: Seq<State>|
                    #[trigger] m.is_route(
                        p,
                        (starts[0].0 as int, starts[0].1 as int),
                        EAST as int,
                        (ends[0].0 as int, ends[0].1 as int),
                    ) ==> walk_cost(p) > usize::MAX
            },
{
    let m = match Maze::new(input) {
        Some(m) => m,
        None => {
            return Err(PuzzleError::Parse);
        },
    };
    let starts = m.find('S');
    let ends = m.find('E');
    if starts.len() == 0 || ends.len() == 0 {
        return Err(PuzzleError::MissingMarker);
    }
    let start = starts[0];
    let end = ends[0];
    match m.shortest_path(start, EAST, end) {
        None => Err(PuzzleError::Unreachable),
        Some(c) => {
            match m.optimal_tiles(start, EAST, end) {
                Some(n) => Ok((c, n)),
                None => {
                    proof {
                        let st = (start.0 as int, start.1 as int);
                        let en = (end.0 as int, end.1 as int);
                        let c2 = choose|c2: int| m.is_least_cost(st, EAST as int, en, c2);
                        let p = choose|p: Seq<State>| #[trigger] m.is_route(p, st, EAST as int, en) && walk_cost(p) == c2;
                        assert(m.is_route(p, st, EAST as int, en));
                    }
                    Err(PuzzleError::Unreachable)
                },
            }
        },
    }
}

/// Turning from `a` to `b` costs as much as turning from `b` to `a`.
pub proof fn lemma_turn_cost_symmetric(a: int, b: int)
    requires
        0 <= a < 4,
        0 <= b < 4,
    ensures
        turn_cost_spec(a, b) == turn_cost_spec(b, a),
{
    if a == 0 {
        if b == 0 {} else if b == 1 {} else if b == 2 {} else {}
    } else if a == 1 {
        if b == 0 {} else if b == 1 {} else if b == 2 {} else {}
    } else if a == 2 {
        if b == 0 {} else if b == 1 {} else if b == 2 {} else {}
    } else {
        if b == 0 {} else if b == 1 {} else if b == 2 {} else {}
    }
}

/// A walk of cost zero makes no move.
proof fn lemma_zero_cost_walk(p: Seq<State>)
    requires
        p.len() >= 1,
        walk_cost(p) == 0,
    ensures
        p.len() == 1,
{
    lemma_walk_cost_nonneg(p);
    if p.len() >= 2 {
        lemma_walk_cost_nonneg(p.drop_last());
    }
}

impl Maze {
    /// Where some route exists, a least route cost exists.
    pub proof fn lemma_least_exists(&self, start: (int, int), dir: int, end: (int, int), p: Seq<State>)
        requires
            self.is_route(p, start, dir, end),
        ensures
            self.least_cost(start, dir, end) is Some,
            exists|c: int| self.is_least_cost(start, dir, end, c),
        decreases walk_cost(p),
    {
        lemma_walk_cost_nonneg(p);
        if forall|q: Seq<State>| #[trigger] self.is_route(q, start, dir, end) ==> walk_cost(q) >= walk_cost(p) {
            assert(self.is_least_cost(start, dir, end, walk_cost(p)));
        } else {
            let q = choose|q: Seq<State>| #[trigger] self.is_route(q, start, dir, end) && walk_cost(q) < walk_cost(p);
            lemma_walk_cost_nonneg(q);
            self.lemma_least_exists(start, dir, end, q);
        }
    }
}

/// When the end is the start, the least cost is zero and the start is the
/// only cell on a least-cost route.
pub proof fn lemma_start_is_end(m: &Maze, start: (int, int), dir: int)
    requires
        m.wf(),
        m.in_bounds(start.0, start.1),
        0 <= dir < 4,
    ensures
        m.least_cost(start, dir, start) == Some(0int),
        m.optimal_cells(start, dir, start) == set![start],
        m.optimal_cells(start, dir, start).len() == 1,
{
    let p = seq![(start.0, start.1, dir)];
    assert(m.is_walk(p));
    assert(m.is_route(p, start, dir, start));
    assert forall|q: Seq<State>| #[trigger] m.is_route(q, start, dir, start) implies walk_cost(q) >= 0 by {
        lemma_walk_cost_nonneg(q);
    }
    assert(m.is_least_cost(start, dir, start, 0));
    m.lemma_least_unique(start, dir, start, 0);
    let cells = m.optimal_cells(start, dir, start);
    assert forall|c: (int, int)| cells.contains(c) <==> c == start by {
        if cells.contains(c) {
            let (q, i) = choose|q: Seq<State>, i: int|
                #[trigger] m.is_route(q, start, dir, start) && Some(walk_cost(q)) == m.least_cost(start, dir, start)
                    && 0 <= i < q.len() && c == (#[trigger] q[i].0, q[i].1);
            lemma_zero_cost_walk(q);
        }
        if c == start {
            assert(p[0].0 == start.0);
            assert(m.is_route(p, start, dir, start) && Some(walk_cost(p)) == m.least_cost(start, dir, start) && 0 <= 0 < p.len() && c == (p[0].0, p[0].1));
        }
    }
    assert(cells =~= set![start]);
}

/// Turning more cells into walls never lowers the least cost: every route of
/// the walled maze is a route of the open one.
pub proof fn lemma_more_walls_cost_more(m1: &Maze, m2: &Maze, start: (int, int), dir: int, end: (int, int))
    requires
        m1.wf(),
        m2.wf(),
        m1.width == m2.width,
        m1.height == m2.height,
        forall|i: int| 0 <= i < m1.tiles@.len() && m1.tiles@[i] == '#' ==> #[trigger] m2.tiles@[i] == '#',
    ensures
        m2.least_cost(start, dir, end) matches Some(c2) ==> (m1.least_cost(start, dir, end) matches Some(c1)
            && c1 <= c2),
{
    if let Some(c2) = m2.least_cost(start, dir, end) {
        assert(m2.is_least_cost(start, dir, end, c2));
        let p = choose|p: Seq<State>| #[trigger] m2.is_route(p, start, dir, end) && walk_cost(p) == c2;
        assert forall|i: int| 0 <= i < p.len() - 1 implies #[trigger] m1.is_move(p[i], p[i + 1]) by {
            assert(m2.is_move(p[i], p[i + 1]));
            let j = p[i + 1].1 * m1.width + p[i + 1].0;
            lemma_cell_index(m1.width as int, m1.height as int, p[i + 1].0, p[i + 1].1);
            if m1.tiles@[j] == '#' {
                assert(m2.tiles@[j] == '#');
            }
        }
        assert(m1.is_route(p, start, dir, end));
        m1.lemma_least_exists(start, dir, end, p);
        let c1 = choose|c1: int| m1.is_least_cost(start, dir, end, c1);
        m1.lemma_least_unique(start, dir, end, c1);
    }
}

/// Where a route exists, the start and the end both lie on a least-cost route.
pub proof fn lemma_optimal_cells_hold_ends(m: &Maze, start: (int, int), dir: int, end: (int, int), p: Seq<State>)
    requires
        m.is_route(p, start, dir, end),
    ensures
        m.optimal_cells(start, dir, end).contains(start),
        m.optimal_cells(start, dir, end).contains(end),
{
    m.lemma_least_exists(start, dir, end, p);
    let c = choose|c: int| m.is_least_cost(start, dir, end, c);
    m.lemma_least_unique(start, dir, end, c);
    let q = choose|q: Seq<State>| #[trigger] m.is_route(q, start, dir, end) && walk_cost(q) == c;
    let last = q.len() - 1;
    assert(m.is_route(q, start, dir, end) && Some(walk_cost(q)) == m.least_cost(start, dir, end) && 0 <= 0 < q.len()
        && start == (q[0].0, q[0].1));
    assert(m.is_route(q, start, dir, end) && Some(walk_cost(q)) == m.least_cost(start, dir, end) && 0 <= last < q.len()
        && end == (q[last].0, q[last].1));
}

} // verus!
