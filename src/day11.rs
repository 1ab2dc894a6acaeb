use vstd::prelude::*;
use std::collections::HashMap;

verus! {

broadcast use vstd::std_specs::hash::group_hash_axioms;

/// Number of decimal digits of `n` (zero has one digit).
pub open spec fn num_digits(n: nat) -> nat
    decreases n,
{
    if n < 10 {
        1
    } else {
        1 + num_digits(n / 10)
    }
}

pub open spec fn pow10(e: nat) -> nat
    decreases e,
{
    if e == 0 {
        1
    } else {
        10 * pow10((e - 1) as nat)
    }
}

/// The two halves of the decimal digits of a stone with an even digit count.
pub open spec fn halves(stone: nat) -> (nat, nat) {
    let d = pow10(num_digits(stone) / 2);
    (stone / d, stone % d)
}

/// How many stones one stone becomes after `steps` blinks: 0 becomes 1, a
/// stone with an even number of digits splits into its two halves, and any
/// other stone is multiplied by 2024.
pub open spec fn blink_count(stone: nat, steps: nat) -> nat
    decreases steps,
{
    if steps == 0 {
        1
    } else if stone == 0 {
        blink_count(1, (steps - 1) as nat)
    } else if num_digits(stone) % 2 == 0 {
        blink_count(halves(stone).0, (steps - 1) as nat) + blink_count(halves(stone).1, (steps - 1) as nat)
    } else {
        blink_count(stone * 2024, (steps - 1) as nat)
    }
}

/// Every stone met along the way fits in a `u64` and every count in a `usize`.
pub open spec fn blink_fits(stone: nat, steps: nat) -> bool
    decreases steps,
{
    if steps == 0 {
        true
    } else if stone == 0 {
        blink_fits(1, (steps - 1) as nat)
    } else if num_digits(stone) % 2 == 0 {
        &&& blink_fits(halves(stone).0, (steps - 1) as nat)
        &&& blink_fits(halves(stone).1, (steps - 1) as nat)
        &&& blink_count(stone, steps) <= usize::MAX
    } else {
        &&& stone * 2024 <= u64::MAX
        &&& blink_fits(stone * 2024, (steps - 1) as nat)
    }
}

pub open spec fn total_count(stones: Seq<u64>, steps: nat) -> nat
    decreases stones.len(),
{
    if stones.len() == 0 {
        0
    } else {
        total_count(stones.drop_last(), steps) + blink_count(stones.last() as nat, steps)
    }
}

pub open spec fn all_fit(stones: Seq<u64>, steps: nat) -> bool {
    forall|i: int| 0 <= i < stones.len() ==> blink_fits(#[trigger] stones[i] as nat, steps)
}

proof fn lemma_pow10_table()
    ensures
        pow10(10) == 10000000000nat,
        pow10(20) == 100000000000000000000nat,
{
    assert(pow10(0) == 1);
    assert(pow10(1) == 10);
    assert(pow10(2) == 100);
    assert(pow10(3) == 1000);
    assert(pow10(4) == 10000);
    assert(pow10(5) == 100000);
    assert(pow10(6) == 1000000);
    assert(pow10(7) == 10000000);
    assert(pow10(8) == 100000000);
    assert(pow10(9) == 1000000000);
    assert(pow10(10) == 10000000000);
    assert(pow10(11) == 100000000000);
    assert(pow10(12) == 1000000000000);
    assert(pow10(13) == 10000000000000);
    assert(pow10(14) == 100000000000000);
    assert(pow10(15) == 1000000000000000);
    assert(pow10(16) == 10000000000000000);
    assert(pow10(17) == 100000000000000000);
    assert(pow10(18) == 1000000000000000000);
    assert(pow10(19) == 10000000000000000000);
    assert(pow10(20) == 100000000000000000000);
}

proof fn lemma_digits_below(n: nat, k: nat)
    requires
        n < pow10(k),
    ensures
        num_digits(n) <= if k == 0 { 1 } else { k },
    decreases k,
{
    if k > 1 && n >= 10 {
        let p = pow10((k - 1) as nat);
        assert(pow10(k) == 10 * p);
        assert(n / 10 < p) by (nonlinear_arith)
            requires n < 10 * p;
        lemma_digits_below(n / 10, (k - 1) as nat);
    } else if k <= 1 {
        assert(pow10(0) == 1);
        assert(pow10(1) == 10);
    }
}

proof fn lemma_pow10_positive(e: nat)
    ensures
        pow10(e) >= 1,
    decreases e,
{
    if e > 0 {
        lemma_pow10_positive((e - 1) as nat);
    }
}

proof fn lemma_pow10_mono(a: nat, b: nat)
    requires
        a <= b,
    ensures
        pow10(a) <= pow10(b),
    decreases b,
{
    lemma_pow10_positive(b);
    if a < b {
        lemma_pow10_mono(a, (b - 1) as nat);
    }
}

/// Number of decimal digits of `n`.
pub fn count_digits(n: u64) -> (r: u32)
    ensures
        r == num_digits(n as nat),
        r <= 20,
{
    proof {
        lemma_pow10_table();
        lemma_digits_below(n as nat, 20);
    }
    let mut count: u32 = 1;
    let mut m = n;
    while m >= 10
        invariant
            count >= 1,
            count - 1 + num_digits(m as nat) == num_digits(n as nat),
            num_digits(n as nat) <= 20,
        decreases m,
    {
        m = m / 10;
        count += 1;
    }
    count
}

/// Splits a stone into the first and the second half of its digits.
pub fn split_stone(stone: u64) -> (r: (u64, u64))
    ensures
        r.0 == halves(stone as nat).0,
        r.1 == halves(stone as nat).1,
{
    let digits = count_digits(stone);
    let half = digits / 2;
    let mut divisor: u64 = 1;
    let mut i: u32 = 0;
    proof {
        lemma_pow10_table();
        lemma_pow10_mono(half as nat, 10);
    }
    while i < half
        invariant
            i <= half,
            half <= 10,
            divisor == pow10(i as nat),
            pow10(half as nat) <= 10000000000,
        decreases half - i,
    {
        proof {
            lemma_pow10_mono((i + 1) as nat, half as nat);
        }
        divisor = divisor * 10;
        i += 1;
    }
    proof {
        lemma_pow10_positive(half as nat);
    }
    (stone / divisor, stone % divisor)
}

/// Memo key of a stone seen at a depth.
pub open spec fn memo_key(stone: nat, depth: nat) -> nat {
    stone * 0x1_0000_0000 + depth
}

/// Every memo entry holds the count for its stone and depth.
pub open spec fn memo_ok(m: Map<u128, usize>, target: nat) -> bool {
    forall|k: u128|
        #[trigger] m.contains_key(k) ==> {
            let stone = (k as nat) / 0x1_0000_0000;
            let depth = (k as nat) % 0x1_0000_0000;
            &&& depth <= target
            &&& blink_fits(stone, (target - depth) as nat)
            &&& m[k] == blink_count(stone, (target - depth) as nat)
        }
}

proof fn lemma_memo_key(stone: nat, depth: nat)
    requires
        depth < 0x1_0000_0000,
    ensures
        memo_key(stone, depth) / 0x1_0000_0000 == stone,
        memo_key(stone, depth) % 0x1_0000_0000 == depth,
{
    vstd::arithmetic::div_mod::lemma_fundamental_div_mod_converse(
        memo_key(stone, depth) as int,
        0x1_0000_0000,
        stone as int,
        depth as int,
    );
}

/// Counts the stones that `stone`, seen at `depth`, becomes by `target`;
/// `None` where a stone or a count overflows.
fn blink(stone: u64, depth: u32, target: u32, memo: &mut HashMap<u128, usize>) -> (r: Option<usize>)
    requires
        depth <= target,
        memo_ok(old(memo)@, target as nat),
    ensures
        memo_ok(final(memo)@, target as nat),
        r is Some <==> blink_fits(stone as nat, (target - depth) as nat),
        r matches Some(v) ==> v == blink_count(stone as nat, (target - depth) as nat),
    decreases target - depth,
{
    let key: u128 = (stone as u128) * 0x1_0000_0000 + depth as u128;
    proof {
        lemma_memo_key(stone as nat, depth as nat);
    }
    match memo.get(&key) {
        Some(v) => {
            return Some(*v);
        },
        None => {},
    }
    if depth == target {
        return Some(1);
    }
    let steps_left: Ghost<nat> = Ghost((target - depth) as nat);
    let result = if stone == 0 {
        blink(1, depth + 1, target, memo)
    } else if count_digits(stone) % 2 == 0 {
        let (a, b) = split_stone(stone);
        let ra = blink(a, depth + 1, target, memo);
        let rb = blink(b, depth + 1, target, memo);
        match (ra, rb) {
            (Some(x), Some(y)) => {
                if x <= usize::MAX - y {
                    Some(x + y)
                } else {
                    None
                }
            },
            _ => None,
        }
    } else {
        if stone <= u64::MAX / 2024 {
            blink(stone * 2024, depth + 1, target, memo)
        } else {
            None
        }
    };
    match result {
        Some(v) => {
            memo.insert(key, v);
        },
        None => {},
    }
    result
}

/// Total number of stones after `steps` blinks; `None` where a stone or a
/// count overflows.
pub fn solve(stones: &[u64], steps: u32) -> (r: Option<usize>)
    ensures
        r is Some <==> all_fit(stones@, steps as nat) && total_count(stones@, steps as nat) <= usize::MAX,
        r matches Some(v) ==> v == total_count(stones@, steps as nat),
{
    let mut memo: HashMap<u128, usize> = HashMap::new();
    let mut sum: usize = 0;
    let mut i: usize = 0;
    while i < stones.len()
        invariant
            i <= stones@.len(),
            memo_ok(memo@, steps as nat),
            all_fit(stones@.subrange(0, i as int), steps as nat),
            sum == total_count(stones@.subrange(0, i as int), steps as nat),
        decreases stones@.len() - i,
    {
        let ghost pre = stones@.subrange(0, i as int);
        let ghost next = stones@.subrange(0, i + 1);
        assert(next.drop_last() =~= pre);
        match blink(stones[i], 0, steps, &mut memo) {
            Some(v) => {
                if sum <= usize::MAX - v {
                    sum = sum + v;
                } else {
                    proof {
                        lemma_total_prefix(stones@, steps as nat, i + 1);
                    }
                    return None;
                }
            },
            None => {
                assert(!blink_fits(stones@[i as int] as nat, steps as nat));
                return None;
            },
        }
        i += 1;
    }
    assert(stones@.subrange(0, i as int) =~= stones@);
    Some(sum)
}

proof fn lemma_total_prefix(stones: Seq<u64>, steps: nat, n: int)
    requires
        0 <= n <= stones.len(),
    ensures
        total_count(stones.subrange(0, n), steps) <= total_count(stones, steps),
    decreases stones.len(),
{
    if n < stones.len() {
        assert(stones.drop_last().subrange(0, n) =~= stones.subrange(0, n));
        lemma_total_prefix(stones.drop_last(), steps, n);
    } else {
        assert(stones.subrange(0, n) =~= stones);
    }
}

} // verus!
