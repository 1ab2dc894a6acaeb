use vstd::prelude::*;

verus! {

broadcast use {
    vstd::seq_lib::to_multiset_update,
    vstd::seq_lib::to_multiset_contains,
    vstd::multiset::group_multiset_axioms,
};

pub open spec fn sorted(s: Seq<i64>) -> bool {
    forall|a: int, b: int| 0 <= a < b < s.len() ==> s[a] <= s[b]
}

pub open spec fn abs_diff(a: i64, b: i64) -> nat {
    if a >= b {
        (a - b) as nat
    } else {
        (b - a) as nat
    }
}

/// Sum of the distances between the paired entries of the first `n` rows.
pub open spec fn distance_total(l: Seq<i64>, r: Seq<i64>, n: int) -> nat
    decreases n,
{
    if n <= 0 {
        0
    } else {
        distance_total(l, r, n - 1) + abs_diff(l[n - 1], r[n - 1])
    }
}

/// How often `x` occurs among the first `n` entries of `s`.
pub open spec fn occurrences(s: Seq<i64>, x: i64, n: int) -> nat
    decreases n,
{
    if n <= 0 {
        0
    } else {
        occurrences(s, x, n - 1) + if s[n - 1] == x {
            1nat
        } else {
            0nat
        }
    }
}

/// Sum, over the first `n` left entries, of the entry times its occurrences on
/// the right.
pub open spec fn similarity_total(l: Seq<i64>, r: Seq<i64>, n: int) -> int
    decreases n,
{
    if n <= 0 {
        0
    } else {
        similarity_total(l, r, n - 1) + l[n - 1] * occurrences(r, l[n - 1], r.len() as int)
    }
}

/// Sorts a column in ascending order.
pub fn sort_column(v: &mut Vec<i64>)
    ensures
        final(v)@.to_multiset() == old(v)@.to_multiset(),
        final(v)@.len() == old(v)@.len(),
        sorted(final(v)@),
{
    let n = v.len();
    if n < 2 {
        return;
    }
    let mut i: usize = 1;
    while i < n
        invariant
            1 <= i <= n,
            n == v@.len(),
            v@.to_multiset() == old(v)@.to_multiset(),
            forall|a: int, b: int| 0 <= a < b < i ==> v@[a] <= v@[b],
        decreases n - i,
    {
        let mut j: usize = i;
        while j > 0 && v[j - 1] > v[j]
            invariant
                0 <= j <= i < n,
                n == v@.len(),
                v@.to_multiset() == old(v)@.to_multiset(),
                forall|a: int, b: int| 0 <= a < b <= i && a != j && b != j ==> v@[a] <= v@[b],
                forall|b: int| j < b <= i ==> v@[j as int] <= v@[b],
            decreases j,
        {
            let x = v[j];
            let y = v[j - 1];
            let ghost before = v@;
            v.set(j - 1, x);
            v.set(j, y);
            proof {
                let mid = before.update(j - 1, x);
                assert(before[j - 1] == y && before.contains(y));
                assert(before.to_multiset().count(y) > 0);
                assert(mid[j as int] == x && mid.contains(x));
                assert(v@ == mid.update(j as int, y));
                assert(mid.to_multiset() == before.to_multiset().insert(x).remove(y));
                assert(v@.to_multiset() == mid.to_multiset().insert(y).remove(x));
                assert(v@.to_multiset() =~= before.to_multiset());
            }
            j -= 1;
        }
        i += 1;
    }
}

/// Sum of the distances between paired entries; `None` where it exceeds
/// `u64::MAX`.
pub fn total_distance(l: &[i64], r: &[i64]) -> (res: Option<u64>)
    requires
        l@.len() == r@.len(),
    ensures
        res is Some <==> distance_total(l@, r@, l@.len() as int) <= u64::MAX,
        res matches Some(v) ==> v == distance_total(l@, r@, l@.len() as int),
{
    let mut sum: u64 = 0;
    let mut i: usize = 0;
    while i < l.len()
        invariant
            l@.len() == r@.len(),
            i <= l@.len(),
            sum == distance_total(l@, r@, i as int),
        decreases l@.len() - i,
    {
        let a = l[i];
        let b = r[i];
        let d: u64 = if a >= b {
            (a as i128 - b as i128) as u64
        } else {
            (b as i128 - a as i128) as u64
        };
        if sum > u64::MAX - d {
            proof {
                lemma_distance_prefix(l@, r@, i + 1, l@.len() as int);
            }
            return None;
        }
        sum = sum + d;
        i += 1;
    }
    Some(sum)
}

proof fn lemma_distance_prefix(l: Seq<i64>, r: Seq<i64>, m: int, n: int)
    requires
        0 <= m <= n,
    ensures
        distance_total(l, r, m) <= distance_total(l, r, n),
    decreases n,
{
    if m < n {
        lemma_distance_prefix(l, r, m, n - 1);
    }
}

/// How often `x` occurs in `s`.
fn count_of(s: &[i64], x: i64) -> (c: u64)
    requires
        s@.len() < 0x1_0000_0000,
    ensures
        c == occurrences(s@, x, s@.len() as int),
        c <= s@.len(),
{
    let mut c: u64 = 0;
    let mut i: usize = 0;
    while i < s.len()
        invariant
            i <= s@.len(),
            s@.len() < 0x1_0000_0000,
            c == occurrences(s@, x, i as int),
            c <= i,
        decreases s@.len() - i,
    {
        if s[i] == x {
            c += 1;
        }
        i += 1;
    }
    c
}

/// Sum of each left entry times how often it occurs on the right.
pub fn similarity(l: &[i64], r: &[i64]) -> (res: i128)
    requires
        l@.len() < 0x1_0000_0000,
        r@.len() < 0x1_0000_0000,
    ensures
        res == similarity_total(l@, r@, l@.len() as int),
{
    let mut sum: i128 = 0;
    let mut i: usize = 0;
    while i < l.len()
        invariant
            i <= l@.len(),
            l@.len() < 0x1_0000_0000,
            r@.len() < 0x1_0000_0000,
            sum == similarity_total(l@, r@, i as int),
            -i * 0x8000_0000_0000_0000 * 0x1_0000_0000 <= sum <= i * 0x8000_0000_0000_0000 * 0x1_0000_0000,
        decreases l@.len() - i,
    {
        let c = count_of(r, l[i]);
        let x = l[i];
        assert(-0x8000_0000_0000_0000 * 0x1_0000_0000 <= x * c <= 0x8000_0000_0000_0000 * 0x1_0000_0000) by (nonlinear_arith)
            requires -0x8000_0000_0000_0000 <= x <= 0x7fff_ffff_ffff_ffff, 0 <= c <= 0x1_0000_0000;
        assert(-(i + 1) * 0x8000_0000_0000_0000 * 0x1_0000_0000 <= sum + x * c <= (i + 1) * 0x8000_0000_0000_0000 * 0x1_0000_0000) by (nonlinear_arith)
            requires
                -i * 0x8000_0000_0000_0000 * 0x1_0000_0000 <= sum <= i * 0x8000_0000_0000_0000 * 0x1_0000_0000,
                -0x8000_0000_0000_0000 * 0x1_0000_0000 <= x * c <= 0x8000_0000_0000_0000 * 0x1_0000_0000;
        assert((i + 1) * 0x8000_0000_0000_0000 * 0x1_0000_0000 <= 0x1_0000_0000 * 0x8000_0000_0000_0000 * 0x1_0000_0000) by (nonlinear_arith)
            requires i + 1 <= 0x1_0000_0000;
        sum = sum + (x as i128) * (c as i128);
        i += 1;
    }
    sum
}

} // verus!
