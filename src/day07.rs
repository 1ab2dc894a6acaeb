use vstd::prelude::*;
use crate::day11::{count_digits, num_digits, pow10};

verus! {

/// The decimal digits of `a` followed by those of `b`.
pub open spec fn concat_spec(a: nat, b: nat) -> nat {
    a * pow10(num_digits(b)) + b
}

/// Some choice of `+`, `*` (and, with `cat`, digit concatenation), applied
/// left to right to `acc` and then each of `rest`, gives `target`.
pub open spec fn reaches(target: nat, acc: nat, rest: Seq<u64>, cat: bool) -> bool
    decreases rest.len(),
{
    if rest.len() == 0 {
        acc == target
    } else {
        let n = rest[0] as nat;
        let tail = rest.drop_first();
        reaches(target, acc + n, tail, cat) || reaches(target, acc * n, tail, cat) || (cat && reaches(
            target,
            concat_spec(acc, n),
            tail,
            cat,
        ))
    }
}

/// The value that stands for every value above `u64::MAX`.
pub open spec fn value_of(v: Option<u64>) -> nat {
    match v {
        Some(x) => x as nat,
        None => u64::MAX as nat + 1,
    }
}

pub open spec fn all_positive(s: Seq<u64>) -> bool {
    forall|i: int| 0 <= i < s.len() ==> #[trigger] s[i] >= 1
}

proof fn lemma_pow10_pos(e: nat)
    ensures
        pow10(e) >= 1,
    decreases e,
{
    if e > 0 {
        lemma_pow10_pos((e - 1) as nat);
    }
}

proof fn lemma_concat_grows(a: nat, b: nat)
    ensures
        concat_spec(a, b) >= a,
{
    lemma_pow10_pos(num_digits(b));
    assert(a * pow10(num_digits(b)) >= a) by (nonlinear_arith)
        requires pow10(num_digits(b)) >= 1;
}

/// Past the target, numbers of at least one only push the value further.
proof fn lemma_past_target(target: nat, acc: nat, rest: Seq<u64>, cat: bool)
    requires
        acc > target,
        all_positive(rest),
    ensures
        !reaches(target, acc, rest, cat),
    decreases rest.len(),
{
    if rest.len() > 0 {
        let n = rest[0] as nat;
        let tail = rest.drop_first();
        assert(rest[0] >= 1);
        assert(all_positive(tail)) by {
            assert forall|i: int| 0 <= i < tail.len() implies #[trigger] tail[i] >= 1 by {
                assert(tail[i] == rest[i + 1]);
            }
        }
        assert(acc * n >= acc) by (nonlinear_arith)
            requires n >= 1;
        lemma_concat_grows(acc, n);
        lemma_past_target(target, acc + n, tail, cat);
        lemma_past_target(target, acc * n, tail, cat);
        lemma_past_target(target, concat_spec(acc, n), tail, cat);
    }
}

/// Any two values above `u64::MAX` reach the same targets.
proof fn lemma_big_alike(target: nat, a: nat, b: nat, rest: Seq<u64>, cat: bool)
    requires
        target <= u64::MAX,
        a > u64::MAX,
        b > u64::MAX,
    ensures
        reaches(target, a, rest, cat) == reaches(target, b, rest, cat),
    decreases rest.len(),
{
    if rest.len() > 0 {
        let n = rest[0] as nat;
        let tail = rest.drop_first();
        lemma_big_alike(target, a + n, b + n, tail, cat);
        if n == 0 {
            assert(a * n == 0 && b * n == 0);
        } else {
            assert(a * n >= a && b * n >= b) by (nonlinear_arith)
                requires n >= 1;
            lemma_big_alike(target, a * n, b * n, tail, cat);
        }
        lemma_concat_grows(a, n);
        lemma_concat_grows(b, n);
        lemma_big_alike(target, concat_spec(a, n), concat_spec(b, n), tail, cat);
    }
}

/// `10` to the number of digits of `n`, or `None` where it overflows.
fn digit_scale(n: u64) -> (r: Option<u64>)
    ensures
        r matches Some(v) ==> v == pow10(num_digits(n as nat)),
        r is None ==> pow10(num_digits(n as nat)) > u64::MAX,
{
    let d = count_digits(n);
    let mut p: u64 = 1;
    let mut i: u32 = 0;
    while i < d
        invariant
            i <= d,
            d as nat == num_digits(n as nat),
            p == pow10(i as nat),
        decreases d - i,
    {
        if p > u64::MAX / 10 {
            proof {
                lemma_pow10_mono_from(i as nat, d as nat);
                assert(10 * p > u64::MAX) by (nonlinear_arith)
                    requires p > u64::MAX / 10;
                assert(pow10(d as nat) >= 10 * pow10(i as nat));
                assert(d as nat == num_digits(n as nat));
            }
            return None;
        }
        p = p * 10;
        i += 1;
    }
    Some(p)
}

proof fn lemma_pow10_mono_from(a: nat, b: nat)
    requires
        a < b,
    ensures
        pow10(b) >= 10 * pow10(a),
    decreases b,
{
    lemma_pow10_pos(b);
    if a + 1 < b {
        lemma_pow10_mono_from(a, (b - 1) as nat);
    }
}

/// Concatenation of the digits, on the values that stand for numbers.
fn concat_value(acc: Option<u64>, n: u64) -> (r: Option<u64>)
    ensures
        value_of(r) == concat_spec(value_of(acc), n as nat) || (r is None && concat_spec(value_of(acc), n as nat)
            > u64::MAX),
{
    proof {
        lemma_concat_grows(value_of(acc), n as nat);
    }
    let v = match acc {
        Some(v) => v,
        None => {
            return None;
        },
    };
    let scale = match digit_scale(n) {
        Some(s) => s,
        None => {
            if v == 0 {
                assert(0 * pow10(num_digits(n as nat)) == 0);
                assert(concat_spec(0, n as nat) == n);
                return Some(n);
            }
            proof {
                lemma_pow10_pos(num_digits(n as nat));
                assert(v as nat * pow10(num_digits(n as nat)) >= pow10(num_digits(n as nat))) by (nonlinear_arith)
                    requires v >= 1, pow10(num_digits(n as nat)) >= 1;
            }
            return None;
        },
    };
    if scale > 0 && v > u64::MAX / scale {
        proof {
            assert(v as nat * scale > u64::MAX) by (nonlinear_arith)
                requires scale > 0, v > u64::MAX / scale;
        }
        return None;
    }
    assert(v as nat * scale <= u64::MAX) by (nonlinear_arith)
        requires scale == 0 || v <= u64::MAX / scale;
    let m = v * scale;
    if m > u64::MAX - n {
        return None;
    }
    Some(m + n)
}

/// Whether the numbers from `i` on can bring `acc` to `target`.
fn reachable_from(
    target: u64,
    acc: Option<u64>,
    numbers: &[u64],
    i: usize,
    cat: bool,
    positive_from: &Vec<bool>,
) -> (r: bool)
    requires
        i <= numbers@.len(),
        positive_from@.len() == numbers@.len() + 1,
        forall|j: int| 0 <= j <= numbers@.len() ==> #[trigger] positive_from@[j] == all_positive(numbers@.subrange(j, numbers@.len() as int)),
    ensures
        r == reaches(target as nat, value_of(acc), numbers@.subrange(i as int, numbers@.len() as int), cat),
    decreases numbers@.len() - i,
{
    let ghost rest = numbers@.subrange(i as int, numbers@.len() as int);
    if i == numbers.len() {
        return match acc {
            Some(v) => v == target,
            None => false,
        };
    }
    let past = match acc {
        Some(v) => v > target,
        None => true,
    };
    if past && positive_from[i] {
        proof {
            lemma_past_target(target as nat, value_of(acc), rest, cat);
        }
        return false;
    }
    let n = numbers[i];
    let ghost tail = numbers@.subrange(i + 1, numbers@.len() as int);
    assert(rest.drop_first() =~= tail);
    assert(rest[0] == n);
    let add: Option<u64> = match acc {
        Some(v) => if v <= u64::MAX - n {
            Some(v + n)
        } else {
            None
        },
        None => None,
    };
    proof {
        if add is None {
            lemma_big_alike(target as nat, value_of(acc) + (n as nat), value_of(add), tail, cat);
        }
    }
    if reachable_from(target, add, numbers, i + 1, cat, positive_from) {
        return true;
    }
    let mul: Option<u64> = match acc {
        Some(v) => if n == 0 || v <= u64::MAX / n {
            proof {
                assert(v as nat * n <= u64::MAX) by (nonlinear_arith)
                    requires n == 0 || v <= u64::MAX / n;
            }
            Some(v * n)
        } else {
            proof {
                assert(v as nat * n > u64::MAX) by (nonlinear_arith)
                    requires n > 0, v > u64::MAX / n;
            }
            None
        },
        None => if n == 0 {
            Some(0)
        } else {
            None
        },
    };
    proof {
        if mul is None {
            if acc is None {
                assert(value_of(acc) * n >= value_of(acc)) by (nonlinear_arith)
                    requires n >= 1;
            }
            lemma_big_alike(target as nat, value_of(acc) * (n as nat), value_of(mul), tail, cat);
        }
    }
    if reachable_from(target, mul, numbers, i + 1, cat, positive_from) {
        return true;
    }
    if cat {
        let c = concat_value(acc, n);
        proof {
            if c is None {
                lemma_big_alike(target as nat, concat_spec(value_of(acc), n as nat), value_of(c), tail, cat);
            }
        }
        if reachable_from(target, c, numbers, i + 1, cat, positive_from) {
            return true;
        }
    }
    false
}

/// For each `j`, whether every number from `j` on is at least one.
fn positive_suffixes(numbers: &[u64]) -> (r: Vec<bool>)
    ensures
        r@.len() == numbers@.len() + 1,
        forall|j: int| 0 <= j <= numbers@.len() ==> #[trigger] r@[j] == all_positive(numbers@.subrange(j, numbers@.len() as int)),
{
    let n = numbers.len();
    let mut rev: Vec<bool> = Vec::new();
    let mut ok = true;
    rev.push(true);
    let mut j: usize = n;
    while j > 0
        invariant
            j <= n == numbers@.len(),
            rev@.len() == n - j + 1,
            ok == all_positive(numbers@.subrange(j as int, n as int)),
            forall|t: int| 0 <= t < rev@.len() ==> #[trigger] rev@[t] == all_positive(numbers@.subrange(n - t, n as int)),
        decreases j,
    {
        proof {
            let s = numbers@.subrange(j - 1, n as int);
            let s2 = numbers@.subrange(j as int, n as int);
            assert(all_positive(s) == (numbers@[j - 1] >= 1 && all_positive(s2))) by {
                if all_positive(s) {
                    assert(s[0] >= 1);
                    assert forall|i: int| 0 <= i < s2.len() implies #[trigger] s2[i] >= 1 by {
                        assert(s2[i] == s[i + 1]);
                    }
                }
                if numbers@[j - 1] >= 1 && all_positive(s2) {
                    assert forall|i: int| 0 <= i < s.len() implies #[trigger] s[i] >= 1 by {
                        if i > 0 {
                            assert(s[i] == s2[i - 1]);
                        }
                    }
                }
            }
        }
        ok = ok && numbers[j - 1] >= 1;
        rev.push(ok);
        j -= 1;
    }
    let mut out: Vec<bool> = Vec::new();
    let mut t: usize = 0;
    let m = rev.len();
    while t < m
        invariant
            m == n + 1,
            t <= n + 1,
            n == numbers@.len(),
            rev@.len() == n + 1,
            out@.len() == t,
            forall|t2: int| 0 <= t2 < rev@.len() ==> #[trigger] rev@[t2] == all_positive(numbers@.subrange(n - t2, n as int)),
            forall|j2: int| 0 <= j2 < t ==> #[trigger] out@[j2] == all_positive(numbers@.subrange(j2, n as int)),
        decreases n + 1 - t,
    {
        out.push(rev[n - t]);
        t += 1;
    }
    out
}

/// Whether `+` and `*`, applied left to right, can make the numbers give
/// `target`.
pub fn valid_equation(target: u64, numbers: &[u64]) -> (r: bool)
    requires
        numbers@.len() >= 1,
    ensures
        r == reaches(target as nat, numbers@[0] as nat, numbers@.drop_first(), false),
{
    let positive_from = positive_suffixes(numbers);
    assert(numbers@.subrange(1, numbers@.len() as int) =~= numbers@.drop_first());
    reachable_from(target, Some(numbers[0]), numbers, 1, false, &positive_from)
}

/// Whether `+`, `*` and digit concatenation, applied left to right, can make
/// the numbers give `target`.
pub fn valid_equation_cat(target: u64, numbers: &[u64]) -> (r: bool)
    requires
        numbers@.len() >= 1,
    ensures
        r == reaches(target as nat, numbers@[0] as nat, numbers@.drop_first(), true),
{
    let positive_from = positive_suffixes(numbers);
    assert(numbers@.subrange(1, numbers@.len() as int) =~= numbers@.drop_first());
    reachable_from(target, Some(numbers[0]), numbers, 1, true, &positive_from)
}

} // verus!
