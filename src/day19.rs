use vstd::prelude::*;

verus! {

/// `p` occurs in `d` at position `i`.
pub open spec fn matches_at(d: Seq<char>, i: int, p: Seq<char>) -> bool {
    0 <= i && i + p.len() <= d.len() && d.subrange(i, i + p.len()) == p
}

/// Ways to build `d[i..]` from patterns, each used any number of times: the
/// sum, over patterns `j..` that occur at `i`, of the ways to build the rest.
pub open spec fn ways_from(d: Seq<char>, pats: Seq<Seq<char>>, i: int, j: int) -> nat
    decreases d.len() - i, pats.len() - j,
{
    if i >= d.len() || j >= pats.len() || j < 0 || i < 0 {
        0
    } else {
        ways_from(d, pats, i, j + 1) + if pats[j].len() > 0 && matches_at(d, i, pats[j]) {
            ways(d, pats, i + pats[j].len())
        } else {
            0
        }
    }
}

/// Ways to build `d[i..]` from the patterns; the empty rest has one way.
pub open spec fn ways(d: Seq<char>, pats: Seq<Seq<char>>, i: int) -> nat
    decreases d.len() - i, pats.len() + 1,
{
    if i >= d.len() {
        1
    } else if i < 0 {
        0
    } else {
        ways_from(d, pats, i, 0)
    }
}

pub open spec fn pattern_views(patterns: Seq<Vec<char>>) -> Seq<Seq<char>> {
    patterns.map_values(|p: Vec<char>| p@)
}

/// Exact numbers up to `u64::MAX`; `None` stands for anything larger.
pub open spec fn fits(v: Option<u64>, n: nat) -> bool {
    match v {
        Some(x) => x as nat == n,
        None => n > u64::MAX,
    }
}

fn add_counts(a: Option<u64>, b: Option<u64>) -> (r: Option<u64>)
    ensures
        forall|x: nat, y: nat| fits(a, x) && fits(b, y) ==> fits(r, x + y),
{
    match (a, b) {
        (Some(x), Some(y)) => if x <= u64::MAX - y {
            Some(x + y)
        } else {
            None
        },
        _ => None,
    }
}

/// Whether pattern `p` occurs in `d` at `i`.
fn occurs_at(d: &[char], i: usize, p: &Vec<char>) -> (r: bool)
    requires
        i <= d@.len(),
    ensures
        r == matches_at(d@, i as int, p@),
{
    let dl = d.len();
    if p.len() > dl - i {
        return false;
    }
    let mut k: usize = 0;
    while k < p.len()
        invariant
            dl == d@.len(),
            k <= p@.len(),
            i + p@.len() <= d@.len(),
            forall|t: int| 0 <= t < k ==> d@[i + t] == p@[t],
        decreases p@.len() - k,
    {
        if d[i + k] != p[k] {
            assert(d@.subrange(i as int, i + p@.len())[k as int] != p@[k as int]);
            return false;
        }
        k += 1;
    }
    assert(d@.subrange(i as int, i + p@.len()) =~= p@);
    true
}

/// Number of ways to build `design` from the patterns, each usable any number
/// of times; `None` where that number exceeds `u64::MAX`.
pub fn count_arrangements(design: &[char], patterns: &Vec<Vec<char>>) -> (r: Option<u64>)
    requires
        design@.len() < usize::MAX,
    ensures
        fits(r, ways(design@, pattern_views(patterns@), 0)),
{
    let ghost pats = pattern_views(patterns@);
    let n = design.len();
    assert(ways(design@, pats, n as int) == 1);
    // table[t] holds the ways to build the suffix that starts at n - t
    let mut table: Vec<Option<u64>> = Vec::new();
    table.push(Some(1));
    let mut t: usize = 1;
    while t <= n
        invariant
            1 <= t <= n + 1,
            n < usize::MAX,
            n == design@.len(),
            pats == pattern_views(patterns@),
            table@.len() == t,
            forall|s: int| 0 <= s < t ==> fits(#[trigger] table@[s], ways(design@, pats, n - s)),
        decreases n + 1 - t,
    {
        let i = n - t;
        let mut acc: Option<u64> = Some(0);
        let mut j: usize = patterns.len();
        while j > 0
            invariant
                j <= patterns@.len(),
                i < n,
                i == n - t,
                n == design@.len(),
                pats == pattern_views(patterns@),
                table@.len() == t,
                forall|s: int| 0 <= s < t ==> fits(#[trigger] table@[s], ways(design@, pats, n - s)),
                fits(acc, ways_from(design@, pats, i as int, j as int)),
            decreases j,
        {
            j -= 1;
            let p = &patterns[j];
            assert(pats[j as int] == p@);
            assert(ways_from(design@, pats, i as int, j as int) == ways_from(design@, pats, i as int, j + 1) + if pats[j as int].len() > 0 && matches_at(design@, i as int, pats[j as int]) {
                ways(design@, pats, i + pats[j as int].len())
            } else {
                0
            });
            if p.len() > 0 && occurs_at(design, i, p) {
                let s = t - p.len();
                assert(n - s == i + p@.len());
                assert(fits(table@[s as int], ways(design@, pats, n - s)));
                acc = add_counts(acc, table[s]);
            } else {
                assert(fits(Some(0u64), 0));
                acc = add_counts(acc, Some(0));
            }
        }
        assert(ways(design@, pats, i as int) == ways_from(design@, pats, i as int, 0));
        table.push(acc);
        t += 1;
    }
    table[n]
}

/// Whether `design` is non-empty and can be built from the patterns.
pub fn design_possible(design: &[char], patterns: &Vec<Vec<char>>) -> (r: bool)
    requires
        design@.len() < usize::MAX,
    ensures
        r == (design@.len() > 0 && ways(design@, pattern_views(patterns@), 0) > 0),
{
    if design.len() == 0 {
        return false;
    }
    match count_arrangements(design, patterns) {
        Some(v) => v > 0,
        None => true,
    }
}

} // verus!
