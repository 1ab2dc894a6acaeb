use vstd::prelude::*;

verus! {

/// Ordering rules: `before[p][q]` holds where page `q` must come before page `p`.
pub struct Rules {
    pub before: Vec<Vec<bool>>,
}

impl Rules {
    pub open spec fn wf(&self) -> bool {
        &&& self.before@.len() == 256
        &&& forall|p: int| 0 <= p < 256 ==> (#[trigger] self.before@[p])@.len() == 256
    }

    pub open spec fn must_precede(&self, q: u8, p: u8) -> bool {
        self.before@[p as int]@[q as int]
    }
}

/// Some rule is broken: a page appears after a page it must precede.
pub open spec fn broken(rules: &Rules, pages: Seq<u8>) -> bool {
    exists|i: int, j: int| 0 <= i < j < pages.len() && #[trigger] rules.must_precede(pages[j], pages[i])
}

/// The rules that the pairs `(q, p)` give: `q` must come before `p`.
pub fn parse_rules(pairs: &[(u8, u8)]) -> (r: Rules)
    ensures
        r.wf(),
        forall|q: u8, p: u8| #[trigger] r.must_precede(q, p) <==> pairs@.contains((q, p)),
{
    let mut before: Vec<Vec<bool>> = Vec::new();
    let mut p: usize = 0;
    while p < 256
        invariant
            p <= 256,
            before@.len() == p,
            forall|i: int| 0 <= i < p ==> (#[trigger] before@[i])@.len() == 256 && forall|j: int| 0 <= j < 256 ==> !before@[i]@[j],
        decreases 256 - p,
    {
        let mut row: Vec<bool> = Vec::new();
        while row.len() < 256
            invariant
                row@.len() <= 256,
                forall|j: int| 0 <= j < row@.len() ==> !row@[j],
            decreases 256 - row@.len(),
        {
            row.push(false);
        }
        before.push(row);
        p += 1;
    }
    let mut k: usize = 0;
    while k < pairs.len()
        invariant
            k <= pairs@.len(),
            before@.len() == 256,
            forall|i: int| 0 <= i < 256 ==> (#[trigger] before@[i])@.len() == 256,
            forall|q: u8, p2: u8| #[trigger] before@[p2 as int]@[q as int] <==> pairs@.subrange(0, k as int).contains((q, p2)),
        decreases pairs@.len() - k,
    {
        let (q, p2) = pairs[k];
        let ghost b0 = before@;
        let mut row = before[p2 as usize].clone();
        assert(row@ == b0[p2 as int]@);
        row.set(q as usize, true);
        before.set(p2 as usize, row);
        proof {
            assert forall|q3: u8, p3: u8| #[trigger] before@[p3 as int]@[q3 as int] <==> pairs@.subrange(0, k + 1).contains((q3, p3)) by {
                let pre = pairs@.subrange(0, k as int);
                let now = pairs@.subrange(0, k + 1);
                assert(now =~= pre.push((q, p2)));
                if pre.contains((q3, p3)) {
                    let t = choose|t: int| 0 <= t < pre.len() && pre[t] == (q3, p3);
                    assert(now[t] == (q3, p3));
                }
                if now.contains((q3, p3)) && (q3, p3) != (q, p2) {
                    let t = choose|t: int| 0 <= t < now.len() && now[t] == (q3, p3);
                    assert(t < pre.len());
                    assert(pre[t] == (q3, p3));
                }
                if (q3, p3) == (q, p2) {
                    assert(now[k as int] == (q, p2));
                }
            }
        }
        k += 1;
    }
    assert(pairs@.subrange(0, k as int) =~= pairs@);
    Rules { before }
}

/// Whether no page appears after a page that it must come before.
pub fn valid_update(rules: &Rules, pages: &[u8]) -> (r: bool)
    requires
        rules.wf(),
    ensures
        r == !broken(rules, pages@),
{
    let mut j: usize = 0;
    while j < pages.len()
        invariant
            rules.wf(),
            j <= pages@.len(),
            forall|i2: int, j2: int| 0 <= i2 < j2 < j ==> !#[trigger] rules.must_precede(pages@[j2], pages@[i2]),
        decreases pages@.len() - j,
    {
        let mut i: usize = 0;
        while i < j
            invariant
                rules.wf(),
                i <= j < pages@.len(),
                forall|i2: int, j2: int| 0 <= i2 < j2 < j ==> !#[trigger] rules.must_precede(pages@[j2], pages@[i2]),
                forall|i2: int| 0 <= i2 < i ==> !#[trigger] rules.must_precede(pages@[j as int], pages@[i2]),
            decreases j - i,
        {
            let p = pages[i];
            let q = pages[j];
            if rules.before[p as usize][q as usize] {
                assert(rules.must_precede(pages@[j as int], pages@[i as int]));
                return false;
            }
            i += 1;
        }
        j += 1;
    }
    true
}

/// Sum of the middle pages of the updates that keep the rules.
pub fn middle_sum(rules: &Rules, updates: &Vec<Vec<u8>>) -> (r: u64)
    requires
        rules.wf(),
        updates@.len() < 0x1_0000_0000_0000,
    ensures
        r == middle_total(rules, updates@.map_values(|u: Vec<u8>| u@), updates@.len() as int),
{
    let ghost views = updates@.map_values(|u: Vec<u8>| u@);
    let mut sum: u64 = 0;
    let mut k: usize = 0;
    while k < updates.len()
        invariant
            rules.wf(),
            k <= updates@.len(),
            updates@.len() < 0x1_0000_0000_0000,
            views == updates@.map_values(|u: Vec<u8>| u@),
            sum == middle_total(rules, views, k as int),
            sum <= 255 * k,
        decreases updates@.len() - k,
    {
        let u = &updates[k];
        assert(views[k as int] == u@);
        if u.len() > 0 && valid_update(rules, u.as_slice()) {
            sum = sum + u[u.len() / 2] as u64;
        }
        k += 1;
    }
    sum
}

/// Sum of the middle pages of the first `n` updates that keep the rules.
pub open spec fn middle_total(rules: &Rules, updates: Seq<Seq<u8>>, n: int) -> nat
    decreases n,
{
    if n <= 0 {
        0
    } else {
        let u = updates[n - 1];
        middle_total(rules, updates, n - 1) + if u.len() > 0 && !broken(rules, u) {
            u[(u.len() / 2) as int] as nat
        } else {
            0
        }
    }
}

} // verus!
