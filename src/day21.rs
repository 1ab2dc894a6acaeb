use vstd::prelude::*;
use crate::day12::{cell_of, dir_offset, lemma_cell_roundtrip, lemma_index_roundtrip};
use crate::steps::{Field, Cell};

verus! {

/// A move on a keypad.
#[derive(Debug, Clone, Copy, PartialEq, Eq, Structural)]
pub enum Direction {
    Up,
    Down,
    Left,
    Right,
}

pub open spec fn offset_spec(d: Direction) -> (int, int) {
    match d {
        Direction::Up => (0, -1),
        Direction::Down => (0, 1),
        Direction::Left => (-1, 0),
        Direction::Right => (1, 0),
    }
}

pub open spec fn char_spec(d: Direction) -> char {
    match d {
        Direction::Up => '^',
        Direction::Down => 'v',
        Direction::Left => '<',
        Direction::Right => '>',
    }
}

impl Direction {
    pub fn offset(&self) -> (r: (isize, isize))
        ensures
            r.0 == offset_spec(*self).0,
            r.1 == offset_spec(*self).1,
    {
        match self {
            Direction::Up => (0, -1),
            Direction::Down => (0, 1),
            Direction::Left => (-1, 0),
            Direction::Right => (1, 0),
        }
    }

    /// The button that makes this move on a directional keypad.
    pub fn to_char(&self) -> (r: char)
        ensures
            r == char_spec(*self),
    {
        match self {
            Direction::Up => '^',
            Direction::Down => 'v',
            Direction::Left => '<',
            Direction::Right => '>',
        }
    }
}

/// A keypad: a grid of keys with gaps.
pub struct Keypad {
    pub tiles: Vec<Option<char>>,
    pub width: usize,
    pub height: usize,
}

/// The keys of a keypad, row after row, among the first `n` cells.
pub open spec fn keys_spec(tiles: Seq<Option<char>>, w: int, n: int) -> Seq<((isize, isize), char)>
    decreases n,
{
    if n <= 0 {
        Seq::empty()
    } else {
        let rest = keys_spec(tiles, w, n - 1);
        match tiles[n - 1] {
            Some(c) => rest.push(((((n - 1) % w) as isize, ((n - 1) / w) as isize), c)),
            None => rest,
        }
    }
}

impl Keypad {
    pub open spec fn wf(&self) -> bool {
        &&& self.width >= 1
        &&& self.height >= 1
        &&& self.tiles@.len() == self.width * self.height
        &&& self.tiles@.len() < isize::MAX
    }

    /// The numeric keypad: 7 8 9 / 4 5 6 / 1 2 3 / gap 0 A.
    pub fn numeric() -> (k: Keypad)
        ensures
            k.wf(),
            k.width == 3,
            k.height == 4,
            k.tiles@ == seq![Some('7'), Some('8'), Some('9'), Some('4'), Some('5'), Some('6'), Some('1'), Some('2'),
                Some('3'), None, Some('0'), Some('A')],
    {
        let tiles = vec![Some('7'), Some('8'), Some('9'), Some('4'), Some('5'), Some('6'), Some('1'), Some('2'),
            Some('3'), None, Some('0'), Some('A')];
        Keypad { tiles, width: 3, height: 4 }
    }

    /// The directional keypad: gap ^ A / < v >.
    pub fn control() -> (k: Keypad)
        ensures
            k.wf(),
            k.width == 3,
            k.height == 2,
            k.tiles@ == seq![None, Some('^'), Some('A'), Some('<'), Some('v'), Some('>')],
    {
        let tiles = vec![None, Some('^'), Some('A'), Some('<'), Some('v'), Some('>')];
        Keypad { tiles, width: 3, height: 2 }
    }

    /// Every key with its position, row after row.
    pub fn iter(&self) -> (r: Vec<((isize, isize), char)>)
        requires
            self.wf(),
        ensures
            r@ == keys_spec(self.tiles@, self.width as int, self.tiles@.len() as int),
    {
        let mut out: Vec<((isize, isize), char)> = Vec::new();
        let mut i: usize = 0;
        while i < self.tiles.len()
            invariant
                self.wf(),
                i <= self.tiles@.len(),
                out@ == keys_spec(self.tiles@, self.width as int, i as int),
            decreases self.tiles@.len() - i,
        {
            match self.tiles[i] {
                Some(c) => {
                    let x = i % self.width;
                    let y = i / self.width;
                    proof {
                        lemma_cell_roundtrip(self.width as int, self.height as int, i as int);
                        assert(self.width <= self.tiles@.len() && self.height <= self.tiles@.len()) by (nonlinear_arith)
                            requires self.tiles@.len() == self.width * self.height, self.width >= 1, self.height >= 1;
                    }
                    out.push(((x as isize, y as isize), c));
                },
                None => {},
            }
            i += 1;
        }
        out
    }

    /// Index of the cell at `(x, y)`, or `None` outside the keypad.
    pub fn index(&self, pos: (isize, isize)) -> (r: Option<usize>)
        requires
            self.wf(),
        ensures
            r is Some <==> 0 <= pos.0 < self.width && 0 <= pos.1 < self.height,
            r matches Some(k) ==> k == pos.1 * self.width + pos.0 && k < self.tiles@.len(),
    {
        let (x, y) = pos;
        if x >= 0 && y >= 0 && (x as usize) < self.width && (y as usize) < self.height {
            proof {
                lemma_index_roundtrip(self.width as int, self.height as int, (x as int, y as int));
            }
            Some(y as usize * self.width + x as usize)
        } else {
            None
        }
    }

    /// Position of the cell at `index`.
    pub fn coords(&self, index: usize) -> (r: (isize, isize))
        requires
            self.wf(),
            index < self.tiles@.len(),
        ensures
            r.0 == cell_of(index as int, self.width as int).0,
            r.1 == cell_of(index as int, self.width as int).1,
    {
        proof {
            lemma_cell_roundtrip(self.width as int, self.height as int, index as int);
            assert(self.width <= self.tiles@.len() && self.height <= self.tiles@.len()) by (nonlinear_arith)
                requires self.tiles@.len() == self.width * self.height, self.width >= 1, self.height >= 1;
        }
        let x = index % self.width;
        let y = index / self.width;
        (x as isize, y as isize)
    }
}

/// The cells that a sequence of moves visits from `start`.
pub open spec fn walk_from(start: Cell, dirs: Seq<Direction>) -> Seq<Cell>
    decreases dirs.len(),
{
    if dirs.len() == 0 {
        seq![start]
    } else {
        let w = walk_from(start, dirs.drop_last());
        w.push((w.last().0 + offset_spec(dirs.last()).0, w.last().1 + offset_spec(dirs.last()).1))
    }
}

proof fn lemma_walk_from_shape(start: Cell, dirs: Seq<Direction>)
    ensures
        walk_from(start, dirs).len() == dirs.len() + 1,
        walk_from(start, dirs)[0] == start,
        forall|i: int|
            0 <= i < dirs.len() ==> #[trigger] walk_from(start, dirs)[i + 1] == (walk_from(start, dirs)[i].0
                + offset_spec(dirs[i]).0, walk_from(start, dirs)[i].1 + offset_spec(dirs[i]).1),
    decreases dirs.len(),
{
    if dirs.len() > 0 {
        lemma_walk_from_shape(start, dirs.drop_last());
        let w = walk_from(start, dirs.drop_last());
        assert forall|i: int| 0 <= i < dirs.len() implies #[trigger] walk_from(start, dirs)[i + 1] == (walk_from(start, dirs)[i].0
            + offset_spec(dirs[i]).0, walk_from(start, dirs)[i].1 + offset_spec(dirs[i]).1) by {
            if i < dirs.len() - 1 {
                assert(w[i + 1] == (w[i].0 + offset_spec(dirs.drop_last()[i]).0, w[i].1 + offset_spec(dirs.drop_last()[i]).1));
            }
        }
    }
}

/// The index of a direction among the field's neighbour offsets.
pub open spec fn dir_index(d: Direction) -> int {
    match d {
        Direction::Up => 0,
        Direction::Right => 1,
        Direction::Down => 2,
        Direction::Left => 3,
    }
}

fn direction_of(i: usize) -> (d: Direction)
    requires
        i < 4,
    ensures
        dir_index(d) == i,
        offset_spec(d) == dir_offset(i as int),
{
    if i == 0 {
        Direction::Up
    } else if i == 1 {
        Direction::Right
    } else if i == 2 {
        Direction::Down
    } else {
        Direction::Left
    }
}

impl Keypad {
    /// Keys can be entered, gaps cannot.
    pub open spec fn keys_open(&self) -> Seq<bool> {
        self.tiles@.map_values(|t: Option<char>| t is Some)
    }

    fn field(&self) -> (f: Field)
        requires
            self.wf(),
        ensures
            f.wf(),
            f.width == self.width,
            f.height == self.height,
            f.open@ == self.keys_open(),
    {
        let mut open: Vec<bool> = Vec::new();
        let mut k: usize = 0;
        while k < self.tiles.len()
            invariant
                k <= self.tiles@.len(),
                open@.len() == k,
                forall|j: int| 0 <= j < k ==> #[trigger] open@[j] == self.tiles@[j] is Some,
            decreases self.tiles@.len() - k,
        {
            open.push(self.tiles[k].is_some());
            k += 1;
        }
        assert(open@ =~= self.keys_open());
        Field { open, width: self.width, height: self.height }
    }

    /// Moves of a shortest walk over keys from `start` to `end`.
    pub fn shortest_path(&self, start: (isize, isize), end: (isize, isize)) -> (r: Vec<Direction>)
        requires
            self.wf(),
            0 <= start.0 < self.width && 0 <= start.1 < self.height,
            0 <= end.0 < self.width && 0 <= end.1 < self.height,
            forall|f: Field|
                f.width == self.width && f.height == self.height && #[trigger] f.open@ == self.keys_open() ==> exists|p: Seq<Cell>|
                    #[trigger] f.is_route(p, (start.0 as int, start.1 as int), (end.0 as int, end.1 as int)) && p.len() - 1
                        <= usize::MAX,
        ensures
            forall|f: Field|
                f.width == self.width && f.height == self.height && #[trigger] f.open@ == self.keys_open() ==> {
                    &&& f.is_route(walk_from((start.0 as int, start.1 as int), r@), (start.0 as int, start.1 as int), (end.0 as int, end.1 as int))
                    &&& f.is_least_steps((start.0 as int, start.1 as int), (end.0 as int, end.1 as int), r@.len() as int)
                },
    {
        let ghost wi = self.width as int;
        let ghost hi = self.height as int;
        let ghost s = (start.0 as int, start.1 as int);
        let ghost e = (end.0 as int, end.1 as int);
        let field = self.field();
        let dist = field.distances((start.0 as usize, start.1 as usize));
        proof {
            lemma_index_roundtrip(wi, hi, e);
        }
        let ek = end.1 as usize * self.width + end.0 as usize;
        assert(cell_of(ek as int, wi) == e);
        let total = match dist[ek] {
            Some(d) => d,
            None => {
                proof {
                    let p = choose|p: Seq<Cell>| #[trigger] field.is_route(p, s, e) && p.len() - 1 <= usize::MAX;
                }
                assert(false);
                0
            },
        };
        // moves in reverse order, last move first
        let mut rev: Vec<Direction> = Vec::new();
        let mut cur = (end.0 as usize, end.1 as usize);
        let mut k: usize = total;
        let ghost mut fwd: Seq<Direction> = Seq::empty();
        while k > 0
            invariant
                field.wf(),
                field.width == self.width,
                field.height == self.height,
                field.open@ == self.keys_open(),
                wi == self.width,
                hi == self.height,
                dist@.len() == field.open@.len(),
                forall|k2: int| 0 <= k2 < dist@.len() ==> (#[trigger] dist@[k2] matches Some(d) ==> field.is_least_steps(s, cell_of(k2, wi), d as int)),
                forall|k2: int| 0 <= k2 < dist@.len() && #[trigger] dist@[k2] is None ==> forall|p: Seq<Cell>|
                    #[trigger] field.is_route(p, s, cell_of(k2, wi)) ==> p.len() - 1 > usize::MAX,
                0 <= cur.0 < self.width,
                0 <= cur.1 < self.height,
                field.is_least_steps(s, (cur.0 as int, cur.1 as int), k as int),
                k + rev@.len() == total,
                field.is_least_steps(s, e, total as int),
                rev@.len() == fwd.len(),
                forall|t: int| 0 <= t < fwd.len() ==> fwd[t] == #[trigger] rev@[rev@.len() - 1 - t],
                field.is_walk(walk_from((cur.0 as int, cur.1 as int), fwd)),
                walk_from((cur.0 as int, cur.1 as int), fwd).last() == e,
            decreases k,
        {
            let ghost c = (cur.0 as int, cur.1 as int);
            proof {
                field.lemma_predecessor(&dist, s, c, k as int);
            }
            let mut i: usize = 0;
            let mut found: Option<(usize, usize)> = None;
            assert(self.width <= self.tiles@.len() && self.height <= self.tiles@.len()) by (nonlinear_arith)
                requires self.tiles@.len() == self.width * self.height, self.width >= 1, self.height >= 1;
            while i < 4 && found.is_none()
                invariant
                    i <= 4,
                    self.wf(),
                    field.wf(),
                    field.width == self.width,
                    field.height == self.height,
                    wi == self.width,
                    hi == self.height,
                    dist@.len() == field.open@.len(),
                    0 <= cur.0 < self.width,
                    0 <= cur.1 < self.height,
                    self.width <= self.tiles@.len(),
                    self.height <= self.tiles@.len(),
                    k > 0,
                    c == (cur.0 as int, cur.1 as int),
                    found matches Some(dv) ==> dv.0 < 4 && field.is_predecessor(dist@, c, k as int, dv.0 as int)
                        && dv.1 == field.index((c.0 - dir_offset(dv.0 as int).0, c.1 - dir_offset(dv.0 as int).1)),
                    found is None ==> forall|i2: int| 0 <= i2 < i ==> !#[trigger] field.is_predecessor(dist@, c, k as int, i2),
                decreases 4 - i + (if found is None { 1int } else { 0int }),
            {
                let (dx, dy) = crate::day12::offset(i);
                let nx = cur.0 as isize - dx;
                let ny = cur.1 as isize - dy;
                if nx >= 0 && ny >= 0 && (nx as usize) < self.width && (ny as usize) < self.height {
                    proof {
                        lemma_index_roundtrip(wi, hi, (nx as int, ny as int));
                    }
                    let nk = ny as usize * self.width + nx as usize;
                    proof {
                        lemma_index_roundtrip(wi, hi, c);
                    }
                    let ck = cur.1 * self.width + cur.0;
                    if field.open[ck] && dist[nk] == Some(k - 1) {
                        assert(dir_offset(i as int) == (c.0 - nx, c.1 - ny));
                        assert(field.is_predecessor(dist@, c, k as int, i as int));
                        found = Some((i, nk));
                    } else {
                        assert(!field.is_predecessor(dist@, c, k as int, i as int));
                        i += 1;
                    }
                } else {
                    assert(!field.is_predecessor(dist@, c, k as int, i as int));
                    i += 1;
                }
            }
            let (di, nk) = match found {
                Some(v) => v,
                None => {
                    assert(false);
                    (0, 0)
                },
            };
            let d = direction_of(di);
            let ghost n = (c.0 - dir_offset(di as int).0, c.1 - dir_offset(di as int).1);
            proof {
                lemma_index_roundtrip(wi, hi, n);
                lemma_cell_roundtrip(wi, hi, nk as int);
                lemma_walk_prepend(&field, n, d, fwd);
                assert forall|t: int| 0 <= t < fwd.len() + 1 implies (seq![d] + fwd)[t] == #[trigger] rev@.push(d)[rev@.len() + 1 - 1 - t] by {
                    if t > 0 {
                        assert((seq![d] + fwd)[t] == fwd[t - 1]);
                        assert(fwd[t - 1] == rev@[rev@.len() - 1 - (t - 1)]);
                        assert(rev@.push(d)[rev@.len() - t] == rev@[rev@.len() - t]);
                    }
                }
                fwd = seq![d] + fwd;
            }
            rev.push(d);
            let (px, py) = self.coords(nk);
            cur = (px as usize, py as usize);
            k -= 1;
        }
        proof {
            let c = (cur.0 as int, cur.1 as int);
            let p = choose|p: Seq<Cell>| #[trigger] field.is_route(p, s, c) && p.len() - 1 == 0;
            assert(c == s);
        }
        let mut out: Vec<Direction> = Vec::new();
        let mut t: usize = 0;
        while t < rev.len()
            invariant
                t <= rev@.len(),
                rev@.len() == fwd.len(),
                forall|t2: int| 0 <= t2 < fwd.len() ==> fwd[t2] == #[trigger] rev@[rev@.len() - 1 - t2],
                out@ == fwd.subrange(0, t as int),
            decreases rev@.len() - t,
        {
            out.push(rev[rev.len() - 1 - t]);
            proof {
                assert(out@ =~= fwd.subrange(0, t + 1));
            }
            t += 1;
        }
        proof {
            assert(out@ =~= fwd);
            lemma_walk_from_shape(s, fwd);
            assert forall|f: Field| f.width == self.width && f.height == self.height && #[trigger] f.open@ == self.keys_open() implies {
                &&& f.is_route(walk_from(s, out@), s, e)
                &&& f.is_least_steps(s, e, out@.len() as int)
            } by {
                crate::day20::lemma_same_field(&field, &f, s, e);
                let w = walk_from(s, out@);
                assert forall|i: int| 0 <= i < w.len() - 1 implies #[trigger] f.is_step(w[i], w[i + 1]) by {
                    assert(field.is_step(w[i], w[i + 1]));
                }
            }
        }
        out
    }
}

/// Prepending a move to a walk that starts where the move leads.
proof fn lemma_walk_prepend(f: &Field, n: Cell, d: Direction, ds: Seq<Direction>)
    requires
        f.in_bounds(n),
        f.is_step(n, (n.0 + offset_spec(d).0, n.1 + offset_spec(d).1)),
        f.is_walk(walk_from((n.0 + offset_spec(d).0, n.1 + offset_spec(d).1), ds)),
    ensures
        f.is_walk(walk_from(n, seq![d] + ds)),
        walk_from(n, seq![d] + ds).last() == walk_from((n.0 + offset_spec(d).0, n.1 + offset_spec(d).1), ds).last(),
{
    let c = (n.0 + offset_spec(d).0, n.1 + offset_spec(d).1);
    let a = walk_from(n, seq![d] + ds);
    let b = walk_from(c, ds);
    lemma_walk_from_shape(n, seq![d] + ds);
    lemma_walk_from_shape(c, ds);
    assert forall|i: int| 0 <= i < b.len() implies a[i + 1] == #[trigger] b[i] by {
        lemma_prepend_index(n, d, ds, i);
    }
    assert forall|i: int| 0 <= i < a.len() - 1 implies #[trigger] f.is_step(a[i], a[i + 1]) by {
        if i > 0 {
            assert(a[i] == b[i - 1]);
            assert(a[i + 1] == b[i]);
            let i0 = i - 1;
            assert(f.is_step(b[i0], b[i0 + 1]));
        }
    }
    assert(a.last() == a[b.len() as int]);
}

proof fn lemma_prepend_index(n: Cell, d: Direction, ds: Seq<Direction>, i: int)
    requires
        0 <= i <= ds.len(),
    ensures
        walk_from(n, seq![d] + ds)[i + 1] == walk_from((n.0 + offset_spec(d).0, n.1 + offset_spec(d).1), ds)[i],
    decreases i,
{
    let c = (n.0 + offset_spec(d).0, n.1 + offset_spec(d).1);
    lemma_walk_from_shape(n, seq![d] + ds);
    lemma_walk_from_shape(c, ds);
    if i > 0 {
        lemma_prepend_index(n, d, ds, i - 1);
        assert((seq![d] + ds)[i] == ds[i - 1]);
    }
}

} // verus!
