use vstd::prelude::*;

verus! {

pub open spec fn valid_delta_spec(d: int) -> bool {
    1 <= d <= 3 || -3 <= d <= -1
}

pub open spec fn sign(d: int) -> int {
    if d > 0 {
        1
    } else if d < 0 {
        -1
    } else {
        0
    }
}

pub open spec fn delta(levels: Seq<i64>, i: int) -> int {
    levels[i + 1] - levels[i]
}

/// A report is safe when every step changes the level by one to three, all in
/// the same direction.
pub open spec fn safe_spec(levels: Seq<i64>) -> bool {
    levels.len() < 2 || forall|i: int|
        0 <= i < levels.len() - 1 ==> valid_delta_spec(#[trigger] delta(levels, i)) && sign(delta(levels, i))
            == sign(delta(levels, 0))
}

/// A report is safe once at most one level is left out.
pub open spec fn dampened_safe_spec(levels: Seq<i64>) -> bool {
    safe_spec(levels) || exists|i: int| 0 <= i < levels.len() && safe_spec(#[trigger] levels.remove(i))
}

/// A step of one to three, up or down.
pub fn valid_delta(delta: i64) -> (r: bool)
    ensures
        r == valid_delta_spec(delta as int),
{
    (delta >= 1 && delta <= 3) || (delta >= -3 && delta <= -1)
}

fn step_of(levels: &[i64], i: usize) -> (r: Option<i64>)
    requires
        i + 1 < levels@.len(),
    ensures
        r matches Some(d) ==> d == delta(levels@, i as int),
        r is None ==> !valid_delta_spec(delta(levels@, i as int)),
{
    let n = levels.len();
    assert(i + 1 < n);
    let d = levels[i + 1] as i128 - levels[i] as i128;
    if d >= -3 && d <= 3 {
        Some(d as i64)
    } else {
        None
    }
}

pub fn safe_report(levels: &[i64]) -> (r: bool)
    ensures
        r == safe_spec(levels@),
{
    if levels.len() < 2 {
        return true;
    }
    let first = match step_of(levels, 0) {
        Some(d) => d,
        None => {
            return false;
        },
    };
    if !valid_delta(first) {
        return false;
    }
    let up = first > 0;
    let mut i: usize = 0;
    while i < levels.len() - 1
        invariant
            levels@.len() >= 2,
            first == delta(levels@, 0),
            valid_delta_spec(first as int),
            up == (first > 0),
            i + 1 <= levels@.len(),
            forall|j: int|
                0 <= j < i ==> valid_delta_spec(#[trigger] delta(levels@, j)) && sign(delta(levels@, j))
                    == sign(delta(levels@, 0)),
        decreases levels@.len() - i,
    {
        let d = match step_of(levels, i) {
            Some(d) => d,
            None => {
                return false;
            },
        };
        if !valid_delta(d) || (d > 0) != up {
            return false;
        }
        i += 1;
    }
    true
}

/// The levels with the one at `i` left out.
fn without(levels: &[i64], i: usize) -> (r: Vec<i64>)
    requires
        i < levels@.len(),
    ensures
        r@ == levels@.remove(i as int),
{
    let mut rest: Vec<i64> = Vec::new();
    let mut j: usize = 0;
    while j < levels.len()
        invariant
            i < levels@.len(),
            j <= levels@.len(),
            j <= i ==> rest@ == levels@.subrange(0, j as int),
            j > i ==> rest@ == levels@.subrange(0, i as int) + levels@.subrange(i + 1, j as int),
        decreases levels@.len() - j,
    {
        if j != i {
            rest.push(levels[j]);
        }
        proof {
            if j + 1 <= i {
                assert(rest@ =~= levels@.subrange(0, j + 1));
            } else if j == i {
                assert(rest@ =~= levels@.subrange(0, i as int) + levels@.subrange(i + 1, j + 1));
            } else {
                assert(rest@ =~= levels@.subrange(0, i as int) + levels@.subrange(i + 1, j + 1));
            }
        }
        j += 1;
    }
    assert(rest@ =~= levels@.remove(i as int));
    rest
}

/// Safe as it is, or safe once one level is removed.
pub fn dampened_safe_report(levels: &[i64]) -> (r: bool)
    ensures
        r == dampened_safe_spec(levels@),
{
    if safe_report(levels) {
        return true;
    }
    let mut i: usize = 0;
    while i < levels.len()
        invariant
            i <= levels@.len(),
            forall|j: int| 0 <= j < i ==> !safe_spec(#[trigger] levels@.remove(j)),
        decreases levels@.len() - i,
    {
        let rest = without(levels, i);
        if safe_report(rest.as_slice()) {
            return true;
        }
        i += 1;
    }
    false
}

} // verus!
