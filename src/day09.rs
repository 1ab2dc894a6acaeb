use vstd::prelude::*;
use crate::text::chars_of;

verus! {

/// Sum of each file block's position times its file id.
pub open spec fn checksum_spec(fs: Seq<Option<u64>>) -> nat
    decreases fs.len(),
{
    if fs.len() == 0 {
        0
    } else {
        checksum_spec(fs.drop_last()) + match fs.last() {
            Some(id) => (id as nat) * ((fs.len() - 1) as nat),
            None => 0,
        }
    }
}

/// Index of the first free block, if any.
#[verifier::opaque]
pub open spec fn first_hole(fs: Seq<Option<u64>>) -> Option<int> {
    if exists|i: int| 0 <= i < fs.len() && fs[i] is None {
        Some(choose|i: int| 0 <= i < fs.len() && fs[i] is None && forall|j: int| 0 <= j < i ==> fs[j] is Some)
    } else {
        None
    }
}

/// Moves file blocks one at a time from the end of the disk into the first
/// free block, until no free block is left before the last file block.
pub open spec fn compact_spec(fs: Seq<Option<u64>>) -> Seq<Option<u64>>
    decreases fs.len(),
{
    if fs.len() == 0 {
        fs
    } else if fs.last() is None {
        compact_spec(fs.drop_last()).push(None)
    } else {
        match first_hole(fs.drop_last()) {
            None => fs,
            Some(h) => if 0 <= h < fs.len() - 1 {
                compact_spec(fs.drop_last().update(h, fs.last())).push(None)
            } else {
                fs
            },
        }
    }
}

/// The blocks that a disk map describes: digit `i` gives that many blocks of
/// file `i / 2` for even `i`, of free space for odd `i`.
pub open spec fn layout_spec(digits: Seq<char>) -> Seq<Option<u64>>
    decreases digits.len(),
{
    if digits.len() == 0 {
        Seq::empty()
    } else {
        let i = digits.len() - 1;
        let block: Option<u64> = if i % 2 == 1 {
            None
        } else {
            Some((i / 2) as u64)
        };
        layout_spec(digits.drop_last()) + Seq::new(
            ((digits.last() as u32) - ('0' as u32)) as nat,
            |k: int| block,
        )
    }
}

pub open spec fn is_digit(c: char) -> bool {
    '0' <= c <= '9'
}

pub open spec fn is_space(c: char) -> bool {
    c == ' ' || c == '\n' || c == '\r' || c == '\t'
}

pub open spec fn trim_start(s: Seq<char>) -> Seq<char>
    decreases s.len(),
{
    if s.len() > 0 && is_space(s[0]) {
        trim_start(s.drop_first())
    } else {
        s
    }
}

pub open spec fn trim_end(s: Seq<char>) -> Seq<char>
    decreases s.len(),
{
    if s.len() > 0 && is_space(s.last()) {
        trim_end(s.drop_last())
    } else {
        s
    }
}

/// The text without whitespace at either end.
pub open spec fn trim(s: Seq<char>) -> Seq<char> {
    trim_end(trim_start(s))
}

/// The checksum of the compacted disk that a disk map describes.
pub open spec fn compacted_checksum(map: Seq<char>) -> nat {
    checksum_spec(compact_spec(layout_spec(trim(map))))
}

/// Highest file id that a disk map of `n` digits can describe.
pub open spec fn top_id(n: int) -> nat {
    if n <= 0 {
        0
    } else {
        ((n - 1) / 2) as nat
    }
}

/// The checksum of the disk that a disk map describes after whole files move.
pub open spec fn defragged_checksum(map: Seq<char>) -> nat {
    checksum_spec(defrag(layout_spec(trim(map)), top_id(trim(map).len() as int)))
}

proof fn lemma_hole_first(fs: Seq<Option<u64>>, h: int)
    requires
        0 <= h < fs.len(),
        fs[h] is None,
        forall|j: int| 0 <= j < h ==> fs[j] is Some,
    ensures
        first_hole(fs) == Some(h),
{
    reveal(first_hole);
    let c = choose|i: int| 0 <= i < fs.len() && fs[i] is None && forall|j: int| 0 <= j < i ==> fs[j] is Some;
    if c < h {
        assert(fs[c] is Some);
    } else if c > h {
        assert(fs[h] is Some);
    }
}

proof fn lemma_no_hole(fs: Seq<Option<u64>>)
    requires
        forall|j: int| 0 <= j < fs.len() ==> fs[j] is Some,
    ensures
        first_hole(fs) is None,
{
    reveal(first_hole);
}

/// Checksum of a disk; `None` where it exceeds `u64::MAX`.
pub fn checksum(fs: &[Option<u64>]) -> (r: Option<u64>)
    ensures
        r is Some <==> checksum_spec(fs@) <= u64::MAX,
        r matches Some(v) ==> v == checksum_spec(fs@),
{
    let mut sum: u64 = 0;
    let mut i: usize = 0;
    while i < fs.len()
        invariant
            i <= fs@.len(),
            sum == checksum_spec(fs@.subrange(0, i as int)),
        decreases fs@.len() - i,
    {
        let ghost pre = fs@.subrange(0, i as int);
        assert(fs@.subrange(0, i + 1).drop_last() =~= pre);
        match fs[i] {
            Some(id) => {
                if id > 0 && i as u64 > u64::MAX / id {
                    proof {
                        assert((id as nat) * (i as nat) > u64::MAX) by (nonlinear_arith)
                            requires id > 0, i > u64::MAX / id;
                        lemma_checksum_prefix(fs@, i + 1);
                    }
                    return None;
                }
                assert((id as nat) * (i as nat) <= u64::MAX) by (nonlinear_arith)
                    requires id == 0 || i <= u64::MAX / id;
                let term = id * i as u64;
                if sum > u64::MAX - term {
                    proof {
                        lemma_checksum_prefix(fs@, i + 1);
                    }
                    return None;
                }
                sum = sum + term;
            },
            None => {},
        }
        i += 1;
    }
    assert(fs@.subrange(0, i as int) =~= fs@);
    Some(sum)
}

proof fn lemma_checksum_prefix(fs: Seq<Option<u64>>, n: int)
    requires
        0 <= n <= fs.len(),
    ensures
        checksum_spec(fs.subrange(0, n)) <= checksum_spec(fs),
    decreases fs.len(),
{
    if n < fs.len() {
        assert(fs.drop_last().subrange(0, n) =~= fs.subrange(0, n));
        lemma_checksum_prefix(fs.drop_last(), n);
    } else {
        assert(fs.subrange(0, n) =~= fs);
    }
}

proof fn lemma_drop_free(fs: Seq<Option<u64>>, right: int)
    requires
        0 < right <= fs.len(),
        fs[right - 1] is None,
    ensures
        compact_spec(fs.subrange(0, right)) + fs.subrange(right, fs.len() as int) == compact_spec(
            fs.subrange(0, right - 1),
        ) + fs.subrange(right - 1, fs.len() as int),
{
    let s = fs.subrange(0, right);
    assert(s.drop_last() =~= fs.subrange(0, right - 1));
    assert(compact_spec(s) == compact_spec(s.drop_last()).push(None));
    assert(compact_spec(s.drop_last()).push(None) + fs.subrange(right, fs.len() as int) =~= compact_spec(
        s.drop_last(),
    ) + fs.subrange(right - 1, fs.len() as int));
}

proof fn lemma_move_block(fs: Seq<Option<u64>>, left: int, right: int)
    requires
        0 <= left < right - 1,
        right <= fs.len(),
        fs[left] is None,
        fs[right - 1] is Some,
        forall|j: int| 0 <= j < left ==> fs[j] is Some,
    ensures
        ({
            let after = fs.update(left, fs[right - 1]).update(right - 1, None);
            compact_spec(fs.subrange(0, right)) + fs.subrange(right, fs.len() as int) == compact_spec(
                after.subrange(0, right - 1),
            ) + after.subrange(right - 1, fs.len() as int)
        }),
{
    let after = fs.update(left, fs[right - 1]).update(right - 1, None);
    let s = fs.subrange(0, right);
    lemma_hole_first(s.drop_last(), left);
    assert(s.drop_last().update(left, s.last()) =~= after.subrange(0, right - 1));
    assert(compact_spec(s) == compact_spec(after.subrange(0, right - 1)).push(None));
    assert(compact_spec(after.subrange(0, right - 1)).push(None) + fs.subrange(right, fs.len() as int)
        =~= compact_spec(after.subrange(0, right - 1)) + after.subrange(right - 1, fs.len() as int));
}

/// Moves file blocks from the end into the leftmost free blocks.
pub fn compact(fs: &mut Vec<Option<u64>>)
    ensures
        final(fs)@ == compact_spec(old(fs)@),
{
    let ghost orig = fs@;
    let mut left: usize = 0;
    let mut right: usize = fs.len();
    assert(fs@.subrange(0, right as int) =~= orig);
    assert(compact_spec(orig) + fs@.subrange(right as int, fs@.len() as int) =~= compact_spec(orig));
    while left < right
        invariant
            left <= right <= fs@.len(),
            fs@.len() == orig.len(),
            forall|j: int| 0 <= j < left ==> fs@[j] is Some,
            forall|j: int| right <= j < fs@.len() ==> fs@[j] is None,
            compact_spec(orig) == compact_spec(fs@.subrange(0, right as int)) + fs@.subrange(
                right as int,
                fs@.len() as int,
            ),
        decreases right - left,
    {
        if fs[left].is_none() {
            while right > left && fs[right - 1].is_none()
                invariant
                    left < fs@.len(),
                    fs@[left as int] is None,
                    left <= right <= fs@.len(),
                    fs@.len() == orig.len(),
                    forall|j: int| 0 <= j < left ==> fs@[j] is Some,
                    forall|j: int| right <= j < fs@.len() ==> fs@[j] is None,
                    compact_spec(orig) == compact_spec(fs@.subrange(0, right as int)) + fs@.subrange(
                        right as int,
                        fs@.len() as int,
                    ),
                decreases right,
            {
                proof {
                    lemma_drop_free(fs@, right as int);
                }
                right -= 1;
            }
            if right > left {
                let ghost before = fs@;
                let moved = fs[right - 1];
                proof {
                    lemma_move_block(before, left as int, right as int);
                }
                fs.set(left, moved);
                fs.set(right - 1, None);
                right -= 1;
            }
        }
        if left < right {
            left += 1;
        }
    }
    proof {
        let s = fs@.subrange(0, right as int);
        lemma_compact_full(s);
        assert(s + fs@.subrange(right as int, fs@.len() as int) =~= fs@);
    }
}

/// A disk without free blocks is left as it is.
proof fn lemma_compact_full(fs: Seq<Option<u64>>)
    requires
        forall|j: int| 0 <= j < fs.len() ==> fs[j] is Some,
    ensures
        compact_spec(fs) == fs,
{
    if fs.len() > 0 {
        lemma_no_hole(fs.drop_last());
    }
}

/// Blocks of a disk map; `None` where a character is not a decimal digit.
pub fn layout(digits: &[char]) -> (r: Option<Vec<Option<u64>>>)
    requires
        digits@.len() < 0x1_0000_0000,
    ensures
        r is Some <==> forall|i: int| 0 <= i < digits@.len() ==> is_digit(#[trigger] digits@[i]),
        r matches Some(v) ==> v@ == layout_spec(digits@),
{
    let mut out: Vec<Option<u64>> = Vec::new();
    let mut i: usize = 0;
    while i < digits.len()
        invariant
            i <= digits@.len(),
            digits@.len() < 0x1_0000_0000,
            forall|j: int| 0 <= j < i ==> is_digit(#[trigger] digits@[j]),
            out@ == layout_spec(digits@.subrange(0, i as int)),
            out@.len() <= 9 * i,
        decreases digits@.len() - i,
    {
        let c = digits[i];
        if !('0' <= c && c <= '9') {
            return None;
        }
        let n = (c as u32) - ('0' as u32);
        let block: Option<u64> = if i % 2 == 1 {
            None
        } else {
            Some((i / 2) as u64)
        };
        let ghost before = out@;
        let mut k: u32 = 0;
        while k < n
            invariant
                k <= n,
                n <= 9,
                out@ == before + Seq::new(k as nat, |j: int| block),
                before.len() <= 9 * i,
            decreases n - k,
        {
            out.push(block);
            proof {
                assert(out@ =~= before + Seq::new((k + 1) as nat, |j: int| block));
            }
            k += 1;
        }
        proof {
            let s = digits@.subrange(0, i + 1);
            assert(s.drop_last() =~= digits@.subrange(0, i as int));
            assert(s.last() == c);
            assert(Seq::new(n as nat, |j: int| block) =~= Seq::new(((s.last() as u32) - ('0' as u32)) as nat, |j: int| {
                if (s.len() - 1) % 2 == 1 {
                    None
                } else {
                    Some(((s.len() - 1) / 2) as u64)
                }
            }));
        }
        i += 1;
    }
    assert(digits@.subrange(0, i as int) =~= digits@);
    Some(out)
}

/// The checksums after compacting block by block and after moving whole
/// files, for the disk that a disk map describes; `None` where the map holds a
/// character that is not a digit (surrounding whitespace aside), and a
/// checksum of `None` where it exceeds `u64::MAX`.
pub fn solution(input: &str) -> (r: Option<(Option<u64>, Option<u64>)>)
    requires
        input@.len() < 0x1_0000_0000,
    ensures
        r is Some <==> (forall|i: int| 0 <= i < trim(input@).len() ==> is_digit(#[trigger] trim(input@)[i])),
        r matches Some((a, b)) ==> {
            &&& (a is Some <==> compacted_checksum(input@) <= u64::MAX)
            &&& (a matches Some(v) ==> v == compacted_checksum(input@))
            &&& (b is Some <==> defragged_checksum(input@) <= u64::MAX)
            &&& (b matches Some(v) ==> v == defragged_checksum(input@))
        },
{
    let chars = chars_of(input);
    let mut start: usize = 0;
    let end0: usize = chars.len();
    assert(chars@.subrange(0, end0 as int) =~= chars@);
    while start < end0 && (chars[start] == ' ' || chars[start] == '\n' || chars[start] == '\r' || chars[start] == '\t')
        invariant
            start <= end0 == chars@.len(),
            trim_start(chars@) == trim_start(chars@.subrange(start as int, end0 as int)),
        decreases end0 - start,
    {
        proof {
            let t = chars@.subrange(start as int, end0 as int);
            assert(t.drop_first() =~= chars@.subrange(start + 1, end0 as int));
        }
        start += 1;
    }
    proof {
        let t = chars@.subrange(start as int, end0 as int);
        assert(trim_start(t) == t);
    }
    let mut end: usize = end0;
    while end > start && (chars[end - 1] == ' ' || chars[end - 1] == '\n' || chars[end - 1] == '\r' || chars[end - 1] == '\t')
        invariant
            start <= end <= chars@.len(),
            trim(chars@) == trim_end(chars@.subrange(start as int, end as int)),
        decreases end,
    {
        proof {
            let t = chars@.subrange(start as int, end as int);
            assert(t.drop_last() =~= chars@.subrange(start as int, end - 1));
        }
        end -= 1;
    }
    proof {
        let t = chars@.subrange(start as int, end as int);
        assert(trim_end(t) == t);
    }
    let mut digits: Vec<char> = Vec::new();
    let mut i: usize = start;
    while i < end
        invariant
            start <= i <= end <= chars@.len(),
            digits@ == chars@.subrange(start as int, i as int),
        decreases end - i,
    {
        digits.push(chars[i]);
        proof {
            assert(digits@ =~= chars@.subrange(start as int, i + 1));
        }
        i += 1;
    }
    assert(digits@ == trim(input@));
    let fs = match layout(digits.as_slice()) {
        Some(v) => v,
        None => {
            return None;
        },
    };
    let mut packed = fs.clone();
    assert(packed@ == fs@);
    compact(&mut packed);
    let part1 = checksum(packed.as_slice());
    let mut moved = fs;
    let top: u64 = if digits.len() == 0 {
        0
    } else {
        ((digits.len() - 1) / 2) as u64
    };
    defragment(&mut moved, top);
    let part2 = checksum(moved.as_slice());
    Some((part1, part2))
}

/// Index of the first block from `i` on that holds `v`; the length where none does.
pub open spec fn first_index(fs: Seq<Option<u64>>, v: Option<u64>, i: int) -> int
    decreases fs.len() - i,
{
    if i >= fs.len() || i < 0 {
        fs.len() as int
    } else if fs[i] == v {
        i
    } else {
        first_index(fs, v, i + 1)
    }
}

/// Number of consecutive blocks holding `v` from `i` on.
pub open spec fn run_len(fs: Seq<Option<u64>>, i: int, v: Option<u64>) -> nat
    decreases fs.len() - i,
{
    if 0 <= i < fs.len() && fs[i] == v {
        1 + run_len(fs, i + 1, v)
    } else {
        0
    }
}

/// First position in `[p, limit)` that starts `size` free blocks; `limit` where none does.
pub open spec fn free_slot(fs: Seq<Option<u64>>, p: int, limit: int, size: nat) -> int
    decreases limit - p,
{
    if p >= limit {
        limit
    } else if run_len(fs, p, None) >= size {
        p
    } else {
        free_slot(fs, p + 1, limit, size)
    }
}

/// Moves file `id` as a whole into the leftmost run of free blocks before it
/// that is long enough; the disk is unchanged where there is none.
pub open spec fn move_file(fs: Seq<Option<u64>>, id: u64) -> Seq<Option<u64>> {
    let start = first_index(fs, Some(id), 0);
    let size = run_len(fs, start, Some(id));
    let slot = free_slot(fs, 0, start, size);
    if start >= fs.len() || slot >= start {
        fs
    } else {
        Seq::new(
            fs.len(),
            |k: int|
                if slot <= k < slot + size {
                    Some(id)
                } else if start <= k < start + size {
                    None
                } else {
                    fs[k]
                },
        )
    }
}

/// Moves whole files, from file `id` down to file 0.
pub open spec fn defrag(fs: Seq<Option<u64>>, id: nat) -> Seq<Option<u64>>
    decreases id,
{
    let moved = move_file(fs, id as u64);
    if id == 0 {
        moved
    } else {
        defrag(moved, (id - 1) as nat)
    }
}

proof fn lemma_run_all(fs: Seq<Option<u64>>, q: int, v: Option<u64>, m: int)
    requires
        0 <= q <= m < q + run_len(fs, q, v),
    ensures
        0 <= m < fs.len(),
        fs[m] == v,
    decreases m - q,
{
    if m > q {
        lemma_run_all(fs, q + 1, v, m);
    }
}

/// The disk while file `id` moves from `start` to `slot`, `k` blocks done.
pub open spec fn filled(f0: Seq<Option<u64>>, slot: int, start: int, k: int, id: u64, m: int) -> Option<u64> {
    if slot <= m < slot + k {
        Some(id)
    } else if start <= m < start + k {
        None
    } else {
        f0[m]
    }
}

/// Moves file `id` as a whole into the leftmost long enough free run before it.
pub fn move_file_exec(fs: &mut Vec<Option<u64>>, id: u64)
    ensures
        final(fs)@ == move_file(old(fs)@, id),
{
    let ghost f0 = fs@;
    let n = fs.len();
    let v = Some(id);
    let mut start: usize = 0;
    while start < n && fs[start] != v
        invariant
            fs@ == f0,
            n == f0.len(),
            start <= n,
            first_index(f0, v, 0) == first_index(f0, v, start as int),
        decreases n - start,
    {
        start += 1;
    }
    if start >= n {
        return;
    }
    let mut end: usize = start;
    while end < n && fs[end] == v
        invariant
            fs@ == f0,
            n == f0.len(),
            start <= end <= n,
            run_len(f0, start as int, v) == (end - start) + run_len(f0, end as int, v),
        decreases n - end,
    {
        end += 1;
    }
    let size = end - start;
    assert(start + size <= n);
    let mut slot: usize = 0;
    let mut found = false;
    while slot < start && !found
        invariant
            fs@ == f0,
            n == f0.len(),
            start < n,
            size == run_len(f0, start as int, v),
            slot <= start,
            start + size <= n,
            found ==> slot < start && run_len(f0, slot as int, None) >= size,
            free_slot(f0, 0, start as int, size as nat) == if found {
                slot as int
            } else {
                free_slot(f0, slot as int, start as int, size as nat)
            },
        decreases start - slot + (if found { 0int } else { 1int }),
    {
        let mut t: usize = 0;
        while t < size && slot + t < n && fs[slot + t].is_none()
            invariant
                fs@ == f0,
                n == f0.len(),
                slot < start < n,
                start + size <= n,
                t <= size,
                run_len(f0, slot as int, None) == t + run_len(f0, slot + t, None),
            decreases size - t,
        {
            t += 1;
        }
        if t == size {
            found = true;
        } else {
            slot += 1;
        }
    }
    if !found {
        return;
    }
    proof {
        assert(fs@[start as int] == v);
        if slot + size > start {
            lemma_run_all(f0, slot as int, None, start as int);
        }
    }
    let ghost target = move_file(f0, id);
    let mut k: usize = 0;
    while k < size
        invariant
            n == f0.len(),
            fs@.len() == n,
            slot + size <= start,
            start + size <= n,
            v == Some(id),
            k <= size,
            forall|m: int| 0 <= m < n ==> #[trigger] fs@[m] == filled(f0, slot as int, start as int, k as int, id, m),
        decreases size - k,
    {
        let ghost b = fs@;
        fs.set(slot + k, v);
        fs.set(start + k, None);
        proof {
            assert(fs@ == b.update(slot + k, v).update(start + k, None));
            let kk = k + 1;
            let want = Seq::new(n as nat, |m: int| filled(f0, slot as int, start as int, kk, id, m));
            assert forall|m: int| 0 <= m < n implies fs@[m] == want[m] by {
                if m == start + k {
                    assert(fs@[m] == None::<u64>);
                    assert(want[m] == None::<u64>);
                } else if m == slot + k {
                    assert(b.update(slot + k, v)[m] == v);
                    assert(fs@[m] == Some(id));
                    assert(want[m] == Some(id));
                } else {
                    assert(fs@[m] == b[m]);
                    assert(b[m] == filled(f0, slot as int, start as int, k as int, id, m));
                    assert(want[m] == filled(f0, slot as int, start as int, k as int, id, m));
                }
            }
            assert(fs@ =~= want);
        }
        k += 1;
    }
    assert(fs@ =~= target);
}

/// Moves whole files from file `top` down to file 0.
pub fn defragment(fs: &mut Vec<Option<u64>>, top: u64)
    ensures
        final(fs)@ == defrag(old(fs)@, top as nat),
{
    let ghost f0 = fs@;
    let mut id = top;
    loop
        invariant
            f0 == old(fs)@,
            defrag(f0, top as nat) == defrag(fs@, id as nat),
        decreases id,
    {
        let ghost b = fs@;
        move_file_exec(fs, id);
        assert(defrag(b, id as nat) == if id == 0 {
            move_file(b, id)
        } else {
            defrag(move_file(b, id), (id - 1) as nat)
        });
        if id == 0 {
            return;
        }
        id -= 1;
    }
}

} // verus!
