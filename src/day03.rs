use vstd::prelude::*;
use crate::text::chars_of;

verus! {

pub open spec fn is_digit(c: char) -> bool {
    '0' <= c <= '9'
}

/// Length of the run of decimal digits that starts at `i`.
pub open spec fn digit_run(s: Seq<char>, i: int) -> nat
    decreases s.len() - i,
{
    if 0 <= i < s.len() && is_digit(s[i]) {
        1 + digit_run(s, i + 1)
    } else {
        0
    }
}

/// Decimal value of the `n` characters from `i`.
pub open spec fn decimal(s: Seq<char>, i: int, n: nat) -> nat
    decreases n,
{
    if n == 0 {
        0
    } else {
        decimal(s, i, (n - 1) as nat) * 10 + ((s[i + n - 1] as u32) - ('0' as u32)) as nat
    }
}

pub open spec fn text_at(s: Seq<char>, i: int, t: Seq<char>) -> bool {
    0 <= i && i + t.len() <= s.len() && s.subrange(i, i + t.len()) == t
}

/// An instruction found in corrupted memory.
pub enum Instr {
    /// `mul(a,b)`.
    Mul(nat, nat),
    /// `mul()`, which multiplies nothing.
    MulEmpty,
    /// `do(...)`: enables later multiplications.
    Do,
    /// `don't(...)`: disables later multiplications.
    Dont,
}

/// `a,b)` at `i`: the two numbers and the length up to the bracket.
pub open spec fn args_at(s: Seq<char>, i: int) -> Option<(nat, nat, int)> {
    let d1 = digit_run(s, i);
    let j = i + d1;
    let d2 = digit_run(s, j + 1);
    if d1 >= 1 && 0 <= j < s.len() && s[j] == ',' && d2 >= 1 && 0 <= j + 1 + d2 < s.len() && s[j + 1 + d2] == ')' {
        Some((decimal(s, i, d1), decimal(s, j + 1, d2), (d1 + 1 + d2 + 1) as int))
    } else {
        None
    }
}

/// Optional arguments and the closing bracket at `i`: their length.
pub open spec fn opt_args_at(s: Seq<char>, i: int) -> Option<(Option<(nat, nat)>, int)> {
    match args_at(s, i) {
        Some((a, b, l)) => Some((Some((a, b)), l)),
        None => if 0 <= i < s.len() && s[i] == ')' {
            Some((None, 1))
        } else {
            None
        },
    }
}

/// The instruction that starts at `i`, with its length; with `all` false only
/// `mul(a,b)` counts.
pub open spec fn instr_at(s: Seq<char>, i: int, all: bool) -> Option<(Instr, int)> {
    if text_at(s, i, seq!['m', 'u', 'l', '(']) {
        if all {
            match opt_args_at(s, i + 4) {
                Some((Some((a, b)), l)) => Some((Instr::Mul(a, b), 4 + l)),
                Some((None, l)) => Some((Instr::MulEmpty, 4 + l)),
                None => None,
            }
        } else {
            match args_at(s, i + 4) {
                Some((a, b, l)) => Some((Instr::Mul(a, b), 4 + l)),
                None => None,
            }
        }
    } else if all && text_at(s, i, seq!['d', 'o', '(']) {
        match opt_args_at(s, i + 3) {
            Some((_, l)) => Some((Instr::Do, 3 + l)),
            None => None,
        }
    } else if all && text_at(s, i, seq!['d', 'o', 'n', '\'', 't', '(']) {
        match opt_args_at(s, i + 6) {
            Some((_, l)) => Some((Instr::Dont, 6 + l)),
            None => None,
        }
    } else {
        None
    }
}

/// Sum of the enabled products from `i` on, scanning left to right and
/// taking each instruction where it starts.
pub open spec fn scan_total(s: Seq<char>, i: int, all: bool, enabled: bool) -> nat
    decreases s.len() - i,
{
    if i < 0 || i >= s.len() {
        0
    } else {
        match instr_at(s, i, all) {
            Some((Instr::Mul(a, b), l)) => (if enabled {
                a * b
            } else {
                0
            }) + if l >= 1 {
                scan_total(s, i + l, all, enabled)
            } else {
                0
            },
            Some((Instr::Do, l)) => if l >= 1 {
                scan_total(s, i + l, all, true)
            } else {
                0
            },
            Some((Instr::Dont, l)) => if l >= 1 {
                scan_total(s, i + l, all, false)
            } else {
                0
            },
            Some((Instr::MulEmpty, l)) => if l >= 1 {
                scan_total(s, i + l, all, enabled)
            } else {
                0
            },
            None => scan_total(s, i + 1, all, enabled),
        }
    }
}

pub open spec fn arg_a(s: Seq<char>, i: int) -> nat {
    match args_at(s, i) {
        Some((a, _, _)) => a,
        None => 0,
    }
}

pub open spec fn arg_b(s: Seq<char>, i: int) -> nat {
    match args_at(s, i) {
        Some((_, b, _)) => b,
        None => 0,
    }
}

pub open spec fn arg_len(s: Seq<char>, i: int) -> int {
    match args_at(s, i) {
        Some((_, _, l)) => l,
        None => 0,
    }
}

pub open spec fn opt_len(s: Seq<char>, i: int) -> int {
    match opt_args_at(s, i) {
        Some((_, l)) => l,
        None => 0,
    }
}

pub open spec fn opt_has(s: Seq<char>, i: int) -> bool {
    match opt_args_at(s, i) {
        Some((Some(_), _)) => true,
        _ => false,
    }
}

pub open spec fn instr_kind(s: Seq<char>, i: int, all: bool) -> Instr {
    match instr_at(s, i, all) {
        Some((ins, _)) => ins,
        None => Instr::MulEmpty,
    }
}

pub open spec fn instr_len(s: Seq<char>, i: int, all: bool) -> int {
    match instr_at(s, i, all) {
        Some((_, l)) => l,
        None => 0,
    }
}

/// A number up to `u64::MAX`; `None` stands for a larger one.
pub open spec fn holds(v: Option<u64>, n: nat) -> bool {
    match v {
        Some(x) => x as nat == n,
        None => n > u64::MAX,
    }
}

/// The run of digits at `i`: its length and its value.
fn number_at(s: &Vec<char>, i: usize) -> (r: (usize, Option<u64>))
    requires
        i <= s@.len(),
    ensures
        r.0 == digit_run(s@, i as int),
        i + r.0 <= s@.len(),
        holds(r.1, decimal(s@, i as int, r.0 as nat)),
{
    let mut j: usize = i;
    let mut value: Option<u64> = Some(0);
    while j < s.len() && '0' <= s[j] && s[j] <= '9'
        invariant
            i <= j <= s@.len(),
            digit_run(s@, i as int) == (j - i) + digit_run(s@, j as int),
            holds(value, decimal(s@, i as int, (j - i) as nat)),
        decreases s@.len() - j,
    {
        let d = (s[j] as u32 - '0' as u32) as u64;
        let ghost n = (j - i) as nat;
        assert(decimal(s@, i as int, n + 1) == decimal(s@, i as int, n) * 10 + d);
        value = match value {
            Some(v) => if v <= (u64::MAX - d) / 10 {
                Some(v * 10 + d)
            } else {
                assert(v * 10 + d > u64::MAX) by (nonlinear_arith)
                    requires v > (u64::MAX - d) / 10, d <= 9;
                None
            },
            None => {
                assert(decimal(s@, i as int, n) * 10 + d > u64::MAX) by (nonlinear_arith)
                    requires decimal(s@, i as int, n) > u64::MAX;
                None
            },
        };
        j += 1;
    }
    (j - i, value)
}

/// What was found at a position, with numbers up to `u64::MAX`.
pub enum Found {
    Mul(Option<u64>, Option<u64>),
    MulEmpty,
    Do,
    Dont,
}

pub open spec fn found_is(f: Found, ins: Instr) -> bool {
    match (f, ins) {
        (Found::Mul(x, y), Instr::Mul(a, b)) => holds(x, a) && holds(y, b),
        (Found::MulEmpty, Instr::MulEmpty) => true,
        (Found::Do, Instr::Do) => true,
        (Found::Dont, Instr::Dont) => true,
        _ => false,
    }
}

fn text_at_exec(s: &Vec<char>, i: usize, t: &[char]) -> (r: bool)
    ensures
        r == text_at(s@, i as int, t@),
{
    let n = s.len();
    if t.len() > n || i > n - t.len() {
        return false;
    }
    let mut k: usize = 0;
    while k < t.len()
        invariant
            n == s@.len(),
            k <= t@.len(),
            i + t@.len() <= s@.len(),
            forall|q: int| 0 <= q < k ==> s@[i + q] == t@[q],
        decreases t@.len() - k,
    {
        if s[i + k] != t[k] {
            assert(s@.subrange(i as int, i + t@.len())[k as int] != t@[k as int]);
            return false;
        }
        k += 1;
    }
    assert(s@.subrange(i as int, i + t@.len()) =~= t@);
    true
}

fn args_at_exec(s: &Vec<char>, i: usize) -> (r: Option<(Option<u64>, Option<u64>, usize)>)
    requires
        i <= s@.len(),
    ensures
        r is Some <==> args_at(s@, i as int) is Some,
        r matches Some((x, y, l)) ==> holds(x, arg_a(s@, i as int)) && holds(y, arg_b(s@, i as int)) && l == arg_len(
            s@,
            i as int,
        ) && i + l <= s@.len(),
{
    let n = s.len();
    let (d1, a) = number_at(s, i);
    let j = i + d1;
    if d1 == 0 || j >= s.len() || s[j] != ',' {
        return None;
    }
    let (d2, b) = number_at(s, j + 1);
    let k = j + 1 + d2;
    if d2 == 0 || k >= s.len() || s[k] != ')' {
        return None;
    }
    Some((a, b, d1 + 1 + d2 + 1))
}

fn opt_args_at_exec(s: &Vec<char>, i: usize) -> (r: Option<(Option<(Option<u64>, Option<u64>)>, usize)>)
    requires
        i <= s@.len(),
    ensures
        r is Some <==> opt_args_at(s@, i as int) is Some,
        r matches Some((args, l)) ==> l == opt_len(s@, i as int) && i + l <= s@.len() && (args is Some <==> opt_has(
            s@,
            i as int,
        )) && (args matches Some((x, y)) ==> holds(x, arg_a(s@, i as int)) && holds(y, arg_b(s@, i as int))),
{
    match args_at_exec(s, i) {
        Some((x, y, l)) => Some((Some((x, y)), l)),
        None => if i < s.len() && s[i] == ')' {
            Some((None, 1))
        } else {
            None
        },
    }
}

fn instr_at_exec(s: &Vec<char>, i: usize, all: bool) -> (r: Option<(Found, usize)>)
    requires
        i < s@.len(),
    ensures
        r is Some <==> instr_at(s@, i as int, all) is Some,
        r matches Some((f, l)) ==> found_is(f, instr_kind(s@, i as int, all)) && l == instr_len(s@, i as int, all) && 1
            <= l && i + l <= s@.len(),
{
    let n = s.len();
    let mul_open = ['m', 'u', 'l', '('];
    let do_open = ['d', 'o', '('];
    let dont_open = ['d', 'o', 'n', '\'', 't', '('];
    assert(mul_open@ =~= seq!['m', 'u', 'l', '(']);
    assert(do_open@ =~= seq!['d', 'o', '(']);
    assert(dont_open@ =~= seq!['d', 'o', 'n', '\'', 't', '(']);
    if text_at_exec(s, i, &mul_open) {
        if all {
            match opt_args_at_exec(s, i + 4) {
                Some((Some((x, y)), l)) => Some((Found::Mul(x, y), 4 + l)),
                Some((None, l)) => Some((Found::MulEmpty, 4 + l)),
                None => None,
            }
        } else {
            match args_at_exec(s, i + 4) {
                Some((x, y, l)) => Some((Found::Mul(x, y), 4 + l)),
                None => None,
            }
        }
    } else if all && text_at_exec(s, i, &do_open) {
        match opt_args_at_exec(s, i + 3) {
            Some((_, l)) => Some((Found::Do, 3 + l)),
            None => None,
        }
    } else if all && text_at_exec(s, i, &dont_open) {
        match opt_args_at_exec(s, i + 6) {
            Some((_, l)) => Some((Found::Dont, 6 + l)),
            None => None,
        }
    } else {
        None
    }
}

/// Product of two numbers that stand for values up to `u64::MAX` or above.
fn product(x: Option<u64>, y: Option<u64>) -> (r: Option<u64>)
    ensures
        forall|a: nat, b: nat| holds(x, a) && holds(y, b) ==> holds(r, a * b),
{
    if x == Some(0u64) || y == Some(0u64) {
        assert forall|a: nat, b: nat| holds(x, a) && holds(y, b) implies holds(Some(0u64), a * b) by {
            if x == Some(0u64) {
                assert(a == 0);
            } else {
                assert(b == 0);
            }
        }
        return Some(0);
    }
    if let (Some(a), Some(b)) = (x, y) {
        if a <= u64::MAX / b {
            assert(a * b <= u64::MAX) by (nonlinear_arith)
                requires b > 0, a <= u64::MAX / b;
            return Some(a * b);
        } else {
            assert(a * b > u64::MAX) by (nonlinear_arith)
                requires b > 0, a > u64::MAX / b;
            return None;
        }
    }
    assert forall|a2: nat, b2: nat| holds(x, a2) && holds(y, b2) implies holds(None, a2 * b2) by {
        assert(a2 >= 1 && b2 >= 1);
        assert(a2 * b2 >= a2 && a2 * b2 >= b2) by (nonlinear_arith)
            requires a2 >= 1, b2 >= 1;
    }
    None
}

/// Sum of the products of the `mul(a,b)` instructions in corrupted memory;
/// with `conditional`, `do()` and `don't()` switch later products on and off.
/// `None` where the sum exceeds `u64::MAX`.
pub fn scan(input: &str, conditional: bool) -> (r: Option<u64>)
    ensures
        r is Some <==> scan_total(input@, 0, conditional, true) <= u64::MAX,
        r matches Some(v) ==> v == scan_total(input@, 0, conditional, true),
{
    let s = chars_of(input);
    let mut acc: u64 = 0;
    let mut enabled = true;
    let mut i: usize = 0;
    while i < s.len()
        invariant
            s@ == input@,
            i <= s@.len(),
            acc + scan_total(s@, i as int, conditional, enabled) == scan_total(s@, 0, conditional, true),
        decreases s@.len() - i,
    {
        match instr_at_exec(&s, i, conditional) {
            Some((Found::Mul(x, y), l)) => {
                if enabled {
                    let p = product(x, y);
                    match p {
                        Some(v) => {
                            if acc > u64::MAX - v {
                                return None;
                            }
                            acc = acc + v;
                        },
                        None => {
                            return None;
                        },
                    }
                }
                i = i + l;
            },
            Some((Found::MulEmpty, l)) => {
                i = i + l;
            },
            Some((Found::Do, l)) => {
                enabled = true;
                i = i + l;
            },
            Some((Found::Dont, l)) => {
                enabled = false;
                i = i + l;
            },
            None => {
                i = i + 1;
            },
        }
    }
    Some(acc)
}

} // verus!
