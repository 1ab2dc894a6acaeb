use vstd::prelude::*;

verus! {

/// Largest secret that one step accepts without overflow.
pub const SECRET_LIMIT: u64 = 0x0400_0000_0000_0000;

pub open spec fn mix_spec(secret: u64, value: u64) -> u64 {
    secret ^ value
}

pub open spec fn prune_spec(secret: u64) -> u64 {
    (secret % 16777216) as u64
}

/// One step of the secret number generator.
pub open spec fn step_spec(secret: u64) -> u64 {
    let s1 = prune_spec(mix_spec(secret, (secret * 64) as u64));
    let s2 = prune_spec(mix_spec(s1, (s1 / 32) as u64));
    prune_spec(mix_spec(s2, (s2 * 2048) as u64))
}

/// The secret after `n` steps.
pub open spec fn nth_secret(secret: u64, n: nat) -> u64
    decreases n,
{
    if n == 0 {
        secret
    } else {
        step_spec(nth_secret(secret, (n - 1) as nat))
    }
}

pub fn mix(secret: u64, value: u64) -> (r: u64)
    ensures
        r == mix_spec(secret, value),
{
    secret ^ value
}

pub fn prune(secret: u64) -> (r: u64)
    ensures
        r == prune_spec(secret),
        r < 16777216,
{
    secret % 16777216
}

pub fn step(secret: u64) -> (r: u64)
    requires
        secret < SECRET_LIMIT,
    ensures
        r == step_spec(secret),
        r < 16777216,
{
    let step1 = prune(mix(secret, secret * 64));
    let step2 = prune(mix(step1, step1 / 32));
    prune(mix(step2, step2 * 2048))
}

/// The secret after `n` steps from `secret`.
pub fn evolve(secret: u64, n: u32) -> (r: u64)
    requires
        secret < SECRET_LIMIT,
    ensures
        r == nth_secret(secret, n as nat),
{
    let mut s = secret;
    let mut i: u32 = 0;
    while i < n
        invariant
            i <= n,
            s == nth_secret(secret, i as nat),
            s < SECRET_LIMIT,
        decreases n - i,
    {
        s = step(s);
        i += 1;
    }
    s
}

} // verus!
