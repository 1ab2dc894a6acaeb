use vstd::prelude::*;
use vstd::arithmetic::div_mod::{lemma_mod_multiples_vanish, lemma_small_mod, lemma_mod_multiples_basic};
use crate::text::chars_of;

verus! {

/// `s` is a rectangular grid of `h` rows of `w` characters, rows separated by
/// `'\n'`, with an optional newline after the last row.
pub open spec fn grid_shape(s: Seq<char>, w: int, h: int) -> bool {
    &&& w >= 1
    &&& h >= 1
    &&& (s.len() == h * (w + 1) - 1 || s.len() == h * (w + 1))
    &&& forall|i: int| 0 <= i < s.len() ==> (#[trigger] s[i] == '\n' <==> i % (w + 1) == w)
}

pub open spec fn cells_match(t: Seq<char>, s: Seq<char>, w: int, h: int) -> bool {
    &&& t.len() == w * h
    &&& forall|x: int, y: int|
        0 <= x < w && 0 <= y < h ==> #[trigger] t[y * w + x] == s[y * (w + 1) + x]
}

proof fn lemma_shape_width(s: Seq<char>, w: int, h: int)
    requires
        grid_shape(s, w, h),
    ensures
        w <= s.len(),
        forall|i: int| 0 <= i < w ==> s[i] != '\n',
        w < (s.len() as int) ==> s[w] == '\n',
        w >= (s.len() as int) ==> w == s.len(),
        (s.len() as int) % (w + 1) == w || (s.len() as int) % (w + 1) == 0,
        (s.len() as int) % (w + 1) == w ==> (s.len() as int) == ((s.len() as int) / (w + 1) + 1) * (w + 1) - 1,
        (s.len() as int) % (w + 1) == 0 ==> (s.len() as int) == ((s.len() as int) / (w + 1)) * (w + 1),
        (s.len() as int) % (w + 1) == w ==> h == (s.len() as int) / (w + 1) + 1,
        (s.len() as int) % (w + 1) == 0 && w != 0 ==> h == (s.len() as int) / (w + 1),
{
    assert(h * (w + 1) - 1 >= w) by (nonlinear_arith)
        requires h >= 1, w >= 1;
    assert forall|i: int| 0 <= i < w implies s[i] != '\n' by {
        lemma_small_mod(i as nat, (w + 1) as nat);
        if i < s.len() {
            assert(s[i] == '\n' <==> i % (w + 1) == w);
        }
    }
    lemma_small_mod(w as nat, (w + 1) as nat);
    assert((h - 1) * (w + 1) >= 0) by (nonlinear_arith)
        requires h >= 1, w >= 1;
    assert(h * (w + 1) - 1 == (h - 1) * (w + 1) + w) by (nonlinear_arith);
    assert(h * (w + 1) >= w + 1) by (nonlinear_arith)
        requires h >= 1, w >= 1;
    if (s.len() as int) == h * (w + 1) - 1 {
        lemma_mod_multiples_vanish(h - 1, w, w + 1);
        assert(((w + 1) * (h - 1) + w) % (w + 1) == w % (w + 1));
        assert((w + 1) * (h - 1) == (h - 1) * (w + 1)) by (nonlinear_arith);
        assert((s.len() as int) % (w + 1) == w);
        vstd::arithmetic::div_mod::lemma_fundamental_div_mod(s.len() as int, w + 1);
        assert((s.len() as int) / (w + 1) == h - 1) by {
            vstd::arithmetic::div_mod::lemma_div_multiples_vanish_fancy(h - 1, w, w + 1);
            assert((w + 1) * (h - 1) == (h - 1) * (w + 1)) by (nonlinear_arith);
        }
    } else {
        lemma_mod_multiples_basic(h, w + 1);
        vstd::arithmetic::div_mod::lemma_div_multiples_vanish(h, w + 1);
        assert((w + 1) * h == h * (w + 1)) by (nonlinear_arith);
    }
}

proof fn lemma_width_unique(s: Seq<char>, w: int, w2: int, h2: int)
    requires
        grid_shape(s, w2, h2),
        0 <= w <= s.len(),
        forall|i: int| 0 <= i < w ==> s[i] != '\n',
        w == s.len() || s[w] == '\n',
    ensures
        w2 == w,
{
    lemma_shape_width(s, w2, h2);
    if w < w2 {
        assert(s[w] != '\n');
    } else if w2 < w {
        assert(s[w2] != '\n');
    }
}

/// Splits a text into a rectangular grid of characters, row after row, with
/// its width and height; `None` where the text is empty, a row is empty, or the
/// rows differ in width.
pub fn parse_grid(input: &str) -> (r: Option<(Vec<char>, usize, usize)>)
    requires
        input@.len() < usize::MAX,
    ensures
        r is Some <==> exists|w: int, h: int| grid_shape(input@, w, h),
        r matches Some((t, w, h)) ==> grid_shape(input@, w as int, h as int) && cells_match(
            t@,
            input@,
            w as int,
            h as int,
        ),
{
    let s = chars_of(input);
    let n = s.len();
    let mut w: usize = 0;
    while w < n && s[w] != '\n'
        invariant
            w <= n,
            n == s@.len(),
            forall|i: int| 0 <= i < w ==> s@[i] != '\n',
        decreases n - w,
    {
        w += 1;
    }
    assert(w == n || s@[w as int] == '\n');
    if w == 0 {
        proof {
            assert forall|w2: int, h2: int| !grid_shape(input@, w2, h2) by {
                if grid_shape(input@, w2, h2) {
                    lemma_shape_width(input@, w2, h2);
                    assert(input@[0] != '\n');
                }
            }
        }
        return None;
    }
    let m = w + 1;
    proof {
        vstd::arithmetic::div_mod::lemma_fundamental_div_mod(n as int, m as int);
    }
    let h: usize = if n % m == w {
        let h = n / m + 1;
        assert(n == h * (w + 1) - 1) by (nonlinear_arith)
            requires n == m * (n / m) + n % m, n % m == w, h == n / m + 1, m == w + 1;
        h
    } else if n % m == 0 {
        let h = n / m;
        assert(n == h * (w + 1)) by (nonlinear_arith)
            requires n == m * (n / m) + n % m, n % m == 0, h == n / m, m == w + 1;
        assert(h >= 1) by (nonlinear_arith)
            requires n == h * m, n >= w, w >= 1, h >= 0;
        h
    } else {
        proof {
            assert forall|w2: int, h2: int| !grid_shape(input@, w2, h2) by {
                if grid_shape(input@, w2, h2) {
                    lemma_width_unique(input@, w as int, w2, h2);
                    lemma_shape_width(input@, w2, h2);
                }
            }
        }
        return None;
    };
    let mut i: usize = 0;
    while i < n
        invariant
            i <= n,
            n == s@.len(),
            m == w + 1,
            s@ == input@,
            w <= n,
            forall|j: int| 0 <= j < w ==> s@[j] != '\n',
            w == n || s@[w as int] == '\n',
            forall|j: int| 0 <= j < i ==> (s@[j] == '\n' <==> j % (m as int) == w),
        decreases n - i,
    {
        if (s[i] == '\n') != (i % m == w) {
            proof {
                assert forall|w2: int, h2: int| !grid_shape(input@, w2, h2) by {
                    if grid_shape(input@, w2, h2) {
                        lemma_width_unique(input@, w as int, w2, h2);
                        assert(input@[i as int] == '\n' <==> (i as int) % (w2 + 1) == w2);
                    }
                }
            }
            return None;
        }
        i += 1;
    }
    assert(grid_shape(input@, w as int, h as int));
    let mut tiles: Vec<char> = Vec::new();
    let mut y: usize = 0;
    while y < h
        invariant
            y <= h,
            n == s@.len(),
            s@ == input@,
            m == w + 1,
            grid_shape(input@, w as int, h as int),
            tiles@.len() == y * w,
            forall|x2: int, y2: int|
                0 <= x2 < w && 0 <= y2 < y ==> #[trigger] tiles@[y2 * w + x2] == s@[y2 * (w + 1) + x2],
        decreases h - y,
    {
        let mut x: usize = 0;
        while x < w
            invariant
                x <= w,
                y < h,
                n == s@.len(),
                s@ == input@,
                m == w + 1,
                grid_shape(input@, w as int, h as int),
                tiles@.len() == y * w + x,
                forall|x2: int, y2: int|
                    0 <= x2 < w && 0 <= y2 < y ==> #[trigger] tiles@[y2 * w + x2] == s@[y2 * (w + 1) + x2],
                forall|x2: int| 0 <= x2 < x ==> #[trigger] tiles@[y * w + x2] == s@[y * (w + 1) + x2],
            decreases w - x,
        {
            assert(y * m + x < n) by (nonlinear_arith)
                requires y < h, x < w, m == w + 1, n >= h * (w + 1) - 1;
            let c = s[y * m + x];
            let ghost before = tiles@;
            tiles.push(c);
            proof {
                assert forall|x2: int, y2: int|
                    0 <= x2 < w && 0 <= y2 < y implies #[trigger] tiles@[y2 * w + x2] == s@[y2 * (w + 1) + x2] by {
                    assert(y2 * w + x2 < y * w) by (nonlinear_arith)
                        requires 0 <= x2 < w, 0 <= y2 < y;
                    assert(tiles@[y2 * w + x2] == before[y2 * w + x2]);
                }
                assert forall|x2: int| 0 <= x2 < x + 1 implies #[trigger] tiles@[y * w + x2] == s@[y * (w + 1) + x2] by {
                    if x2 < x {
                        assert(tiles@[y * w + x2] == before[y * w + x2]);
                    }
                }
            }
            x += 1;
        }
        proof {
            assert forall|x2: int, y2: int|
                0 <= x2 < w && 0 <= y2 < y + 1 implies #[trigger] tiles@[y2 * w + x2] == s@[y2 * (w + 1) + x2] by {
                if y2 < y {
                } else {
                    assert(y2 == y);
                }
            }
            assert((y + 1) * w == y * w + w) by (nonlinear_arith);
        }
        y = y + 1;
    }
    assert(tiles@.len() == w * h) by (nonlinear_arith)
        requires tiles@.len() == y * w, y == h;
    Some((tiles, w, h))
}

/// A grid text has one shape only.
pub proof fn lemma_shape_unique(s: Seq<char>, w: int, h: int, w2: int, h2: int)
    requires
        grid_shape(s, w, h),
        grid_shape(s, w2, h2),
    ensures
        w == w2,
        h == h2,
{
    lemma_shape_width(s, w, h);
    lemma_shape_width(s, w2, h2);
    if w < s.len() {
        lemma_width_unique(s, w, w2, h2);
    } else {
        assert(w == s.len());
        lemma_width_unique(s, w, w2, h2);
    }
}

} // verus!
