use vstd::prelude::*;

verus! {

pub const WIDTH: isize = 101;
pub const HEIGHT: isize = 103;

/// A robot on a wrapping floor of `WIDTH` by `HEIGHT` tiles.
#[derive(Clone, Copy, Debug)]
pub struct Robot {
    pub pos: (isize, isize),
    pub vel: (isize, isize),
}

/// The quadrant of a position: 0 top left, 1 top right, 2 bottom left,
/// 3 bottom right; `None` on the middle row or column.
pub open spec fn quadrant_spec(x: int, y: int) -> Option<usize> {
    let cx = WIDTH / 2;
    let cy = HEIGHT / 2;
    if x < cx && y < cy {
        Some(0)
    } else if x > cx && y < cy {
        Some(1)
    } else if x < cx && y > cy {
        Some(2)
    } else if x > cx && y > cy {
        Some(3)
    } else {
        None
    }
}

/// Room for `steps` moves without overflow.
pub open spec fn can_step(r: Robot, steps: int) -> bool {
    &&& isize::MIN <= r.vel.0 * steps <= isize::MAX
    &&& isize::MIN <= r.vel.1 * steps <= isize::MAX
    &&& isize::MIN <= r.pos.0 + r.vel.0 * steps <= isize::MAX
    &&& isize::MIN <= r.pos.1 + r.vel.1 * steps <= isize::MAX
}

/// Truncated remainder made non-negative.
fn wrap(v: isize, m: isize) -> (r: isize)
    requires
        m > 0,
    ensures
        r == v as int % m as int,
{
    if v >= 0 {
        let r = (v as usize % m as usize) as isize;
        r
    } else {
        let u = (-(v + 1)) as usize;
        let ru = u % (m as usize);
        proof {
            vstd::arithmetic::div_mod::lemma_fundamental_div_mod(u as int, m as int);
            let q = u as int / m as int;
            assert(v as int == -(q + 1) * (m as int) + (m - 1 - ru)) by (nonlinear_arith)
                requires u as int == m * q + ru, v as int == -(u + 1);
            vstd::arithmetic::div_mod::lemma_fundamental_div_mod_converse(
                v as int,
                m as int,
                -(q + 1),
                m - 1 - ru,
            );
        }
        m - 1 - ru as isize
    }
}

impl Robot {
    /// Moves the robot `steps` times, wrapping round the edges.
    pub fn step(&mut self, steps: isize)
        requires
            can_step(*old(self), steps as int),
        ensures
            final(self).vel == old(self).vel,
            final(self).pos.0 == (old(self).pos.0 + old(self).vel.0 * steps) % (WIDTH as int),
            final(self).pos.1 == (old(self).pos.1 + old(self).vel.1 * steps) % (HEIGHT as int),
    {
        let x = self.pos.0 + self.vel.0 * steps;
        let y = self.pos.1 + self.vel.1 * steps;
        self.pos.0 = wrap(x, WIDTH);
        self.pos.1 = wrap(y, HEIGHT);
    }

    pub fn quadrant(&self) -> (r: Option<usize>)
        ensures
            r == quadrant_spec(self.pos.0 as int, self.pos.1 as int),
    {
        let x = self.pos.0;
        let y = self.pos.1;
        let centre_x = WIDTH / 2;
        let centre_y = HEIGHT / 2;
        if x < centre_x && y < centre_y {
            Some(0)
        } else if x > centre_x && y < centre_y {
            Some(1)
        } else if x < centre_x && y > centre_y {
            Some(2)
        } else if x > centre_x && y > centre_y {
            Some(3)
        } else {
            None
        }
    }
}

/// A robot's position after `steps` moves.
pub open spec fn moved(r: Robot, steps: int) -> (int, int) {
    ((r.pos.0 + r.vel.0 * steps) % (WIDTH as int), (r.pos.1 + r.vel.1 * steps) % (HEIGHT as int))
}

/// Robots among the first `n` that end in quadrant `q` after `steps` moves.
pub open spec fn quadrant_count(robots: Seq<Robot>, steps: int, q: usize, n: int) -> nat
    decreases n,
{
    if n <= 0 {
        0
    } else {
        quadrant_count(robots, steps, q, n - 1) + if quadrant_spec(moved(robots[n - 1], steps).0, moved(robots[n - 1], steps).1)
            == Some(q) {
            1nat
        } else {
            0nat
        }
    }
}

/// The product of the four quadrant counts after `steps` moves.
pub open spec fn safety_spec(robots: Seq<Robot>, steps: int) -> nat {
    let n = robots.len() as int;
    quadrant_count(robots, steps, 0, n) * quadrant_count(robots, steps, 1, n) * quadrant_count(robots, steps, 2, n)
        * quadrant_count(robots, steps, 3, n)
}

/// The product of the numbers of robots in each quadrant after `steps`
/// moves; `None` where it exceeds `u64::MAX`.
pub fn safety_factor(robots: &[Robot], steps: isize) -> (r: Option<u64>)
    requires
        forall|i: int| 0 <= i < robots@.len() ==> can_step(#[trigger] robots@[i], steps as int),
        robots@.len() < 0x1_0000,
    ensures
        r is Some <==> safety_spec(robots@, steps as int) <= u64::MAX,
        r matches Some(v) ==> v == safety_spec(robots@, steps as int),
{
    let mut counts: [u64; 4] = [0, 0, 0, 0];
    let mut i: usize = 0;
    while i < robots.len()
        invariant
            i <= robots@.len(),
            robots@.len() < 0x1_0000,
            forall|j: int| 0 <= j < robots@.len() ==> can_step(#[trigger] robots@[j], steps as int),
            forall|q: int| 0 <= q < 4 ==> #[trigger] counts[q] == quadrant_count(robots@, steps as int, q as usize, i as int),
            forall|q: int| 0 <= q < 4 ==> #[trigger] counts[q] <= i,
        decreases robots@.len() - i,
    {
        let mut r = robots[i];
        r.step(steps);
        let ghost before = counts;
        match r.quadrant() {
            Some(q) => {
                counts.set(q, counts[q] + 1);
            },
            None => {},
        }
        proof {
            assert forall|q: int| 0 <= q < 4 implies #[trigger] counts[q] == quadrant_count(robots@, steps as int, q as usize, i + 1) by {
                assert(before[q] == quadrant_count(robots@, steps as int, q as usize, i as int));
            }
            assert forall|q: int| 0 <= q < 4 implies #[trigger] counts[q] <= i + 1 by {
                assert(before[q] <= i);
            }
        }
        i += 1;
    }
    let a = counts[0] as u128;
    let b = counts[1] as u128;
    let c = counts[2] as u128;
    let d = counts[3] as u128;
    assert(a * b <= 0x1_0000_0000) by (nonlinear_arith)
        requires a <= 0x1_0000, b <= 0x1_0000;
    assert(a * b * c <= 0x1_0000_0000_0000) by (nonlinear_arith)
        requires a * b <= 0x1_0000_0000, c <= 0x1_0000;
    assert(a * b * c * d <= 0x1_0000_0000_0000_0000) by (nonlinear_arith)
        requires a * b * c <= 0x1_0000_0000_0000, d <= 0x1_0000;
    let product = a * b * c * d;
    if product > u64::MAX as u128 {
        None
    } else {
        Some(product as u64)
    }
}

} // verus!
