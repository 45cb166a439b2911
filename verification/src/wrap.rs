//! Greedy line wrapping for text runs.
//!
//! A run is broken into lines of at most `max` bytes: the break is placed
//! at the last space at or before the edge (the space itself is consumed),
//! and where no space is in reach the run is hard-broken at the edge.
//! Empty content still yields one empty line, so every run advances the
//! vertical cursor at least once.

use vstd::prelude::*;

verus! {

/// The byte that counts as a whitespace break point.
pub const SPACE: u8 = 32;

/// Index of the last space strictly below index `k` in `s`, or -1 if
/// there is none. Only indices below `s.len()` are ever consulted.
pub open spec fn last_space(s: Seq<u8>, k: int) -> int
    decreases k,
{
    if k <= 0 {
        -1
    } else if s[k - 1] == SPACE {
        k - 1
    } else {
        last_space(s, k - 1)
    }
}

/// The break index is always inside the searched range.
pub proof fn lemma_last_space_bounds(s: Seq<u8>, k: int)
    requires
        0 <= k,
    ensures
        -1 <= last_space(s, k) < k,
    decreases k,
{
    if k > 0 && s[k - 1] != SPACE {
        lemma_last_space_bounds(s, k - 1);
    }
}

/// The lines of `s` wrapped at width `max` (in bytes). For content longer
/// than `max`, the first line ends at the last space at or before index
/// `max` (the space is consumed), or at index `max` exactly when no space
/// is in reach; the rest is wrapped the same way.
pub open spec fn wrap_spec(s: Seq<u8>, max: int) -> Seq<Seq<u8>>
    decreases s.len(),
    via wrap_spec_dec
{
    if max < 1 {
        seq![]
    } else if s.len() <= max {
        seq![s]
    } else {
        let b = last_space(s, max + 1);
        if b >= 0 {
            seq![s.take(b)] + wrap_spec(s.skip(b + 1), max)
        } else {
            seq![s.take(max)] + wrap_spec(s.skip(max), max)
        }
    }
}

#[via_fn]
proof fn wrap_spec_dec(s: Seq<u8>, max: int) {
    if !(max < 1) && !(s.len() <= max) {
        lemma_last_space_bounds(s, max + 1);
    }
}

/// Wrapping respects the width budget: every wrapped line holds at most
/// `max` bytes, so no emitted line is wider than the room the canvas
/// leaves at the section's horizontal origin.
pub proof fn lemma_wrap_line_bounds(s: Seq<u8>, max: int)
    requires
        1 <= max,
    ensures
        forall|i: int|
            0 <= i < wrap_spec(s, max).len() ==> (#[trigger] wrap_spec(s, max)[i]).len() <= max,
    decreases s.len(),
{
    if s.len() <= max {
    } else {
        let b = last_space(s, max + 1);
        lemma_last_space_bounds(s, max + 1);
        if b >= 0 {
            lemma_wrap_line_bounds(s.skip(b + 1), max);
            assert forall|i: int| 0 <= i < wrap_spec(s, max).len() implies (#[trigger] wrap_spec(
                s,
                max,
            )[i]).len() <= max by {
                if i == 0 {
                    assert(wrap_spec(s, max)[0] == s.take(b));
                } else {
                    assert(wrap_spec(s, max)[i] == wrap_spec(s.skip(b + 1), max)[i - 1]);
                }
            }
        } else {
            lemma_wrap_line_bounds(s.skip(max), max);
            assert forall|i: int| 0 <= i < wrap_spec(s, max).len() implies (#[trigger] wrap_spec(
                s,
                max,
            )[i]).len() <= max by {
                if i == 0 {
                    assert(wrap_spec(s, max)[0] == s.take(max));
                } else {
                    assert(wrap_spec(s, max)[i] == wrap_spec(s.skip(max), max)[i - 1]);
                }
            }
        }
    }
}

/// Wrapping makes progress: there are never more lines than bytes, plus
/// the one line of empty content.
pub proof fn lemma_wrap_count(s: Seq<u8>, max: int)
    requires
        1 <= max,
    ensures
        wrap_spec(s, max).len() <= s.len() + 1,
    decreases s.len(),
{
    if s.len() <= max {
    } else {
        let b = last_space(s, max + 1);
        lemma_last_space_bounds(s, max + 1);
        if b >= 0 {
            lemma_wrap_count(s.skip(b + 1), max);
        } else {
            lemma_wrap_count(s.skip(max), max);
        }
    }
}

/// Copies `s[a..b]` into a fresh vector.
pub fn sub_bytes(s: &Vec<u8>, a: usize, b: usize) -> (r: Vec<u8>)
    requires
        a <= b <= s@.len(),
    ensures
        r@ == s@.subrange(a as int, b as int),
{
    let mut r: Vec<u8> = Vec::new();
    let mut i: usize = a;
    while i < b
        invariant
            a <= i <= b <= s@.len(),
            r@ == s@.subrange(a as int, i as int),
        decreases b - i,
    {
        r.push(s[i]);
        assert(r@ =~= s@.subrange(a as int, i as int + 1));
        i = i + 1;
    }
    r
}

/// Wraps `s` into lines of at most `max` bytes, exactly as `wrap_spec`
/// describes.
pub fn wrap_line(s: &Vec<u8>, max: u64) -> (r: Vec<Vec<u8>>)
    requires
        1 <= max,
    ensures
        r@.map_values(|l: Vec<u8>| l@) == wrap_spec(s@, max as int),
{
    let mut lines: Vec<Vec<u8>> = Vec::new();
    let mut start: usize = 0;
    let mut done: bool = false;
    assert(lines@.map_values(|l: Vec<u8>| l@) =~= Seq::<Seq<u8>>::empty());
    assert(s@.skip(0) =~= s@);
    assert(Seq::<Seq<u8>>::empty() + wrap_spec(s@, max as int) =~= wrap_spec(s@, max as int));
    while !done
        invariant
            1 <= max,
            start <= s@.len(),
            !done ==> wrap_spec(s@, max as int) == lines@.map_values(|l: Vec<u8>| l@)
                + wrap_spec(s@.skip(start as int), max as int),
            done ==> wrap_spec(s@, max as int) == lines@.map_values(|l: Vec<u8>| l@),
        decreases s@.len() - start, (if done { 0int } else { 1int }),
    {
        let ghost prev_map = lines@.map_values(|l: Vec<u8>| l@);
        let ghost suffix = s@.skip(start as int);
        let rem: usize = s.len() - start;
        assert(suffix.len() == rem);
        if rem as u64 <= max {
            let line = sub_bytes(s, start, s.len());
            assert(line@ =~= suffix);
            assert(wrap_spec(suffix, max as int) == seq![suffix]);
            lines.push(line);
            assert(lines@.map_values(|l: Vec<u8>| l@) =~= prev_map + seq![suffix]);
            done = true;
        } else {
            assert(max < rem as u64);
            let m: usize = max as usize;
            let mut k: usize = m + 1;
            let mut brk: usize = 0;
            let mut found: bool = false;
            while k > 0 && !found
                invariant
                    k <= m + 1,
                    m < rem,
                    start + rem == s@.len(),
                    s@.len() <= usize::MAX,
                    suffix == s@.skip(start as int),
                    !found ==> last_space(suffix, m as int + 1) == last_space(suffix, k as int),
                    found ==> last_space(suffix, m as int + 1) == brk && brk <= m,
                decreases k, (if found { 0int } else { 1int }),
            {
                assert(k >= 1);
                assert(start + k <= s@.len());
                assert(suffix[k as int - 1] == s@[start as int + k as int - 1]);
                if s[start + k - 1] == SPACE {
                    assert(last_space(suffix, k as int) == k - 1);
                    brk = k - 1;
                    found = true;
                } else {
                    assert(last_space(suffix, k as int) == last_space(suffix, k as int - 1));
                    k = k - 1;
                }
            }
            if found {
                assert(last_space(suffix, m as int + 1) == brk && brk <= m);
                assert(wrap_spec(suffix, max as int) == seq![suffix.take(brk as int)]
                    + wrap_spec(suffix.skip(brk as int + 1), max as int));
                let line = sub_bytes(s, start, start + brk);
                assert(line@ =~= suffix.take(brk as int));
                lines.push(line);
                assert(lines@.map_values(|l: Vec<u8>| l@) =~= prev_map + seq![suffix.take(
                    brk as int,
                )]);
                start = start + brk + 1;
                assert(s@.skip(start as int) =~= suffix.skip(brk as int + 1));
                assert(lines@.map_values(|l: Vec<u8>| l@) + wrap_spec(
                    s@.skip(start as int),
                    max as int,
                ) =~= (prev_map + seq![suffix.take(brk as int)]) + wrap_spec(
                    suffix.skip(brk as int + 1),
                    max as int,
                ));
                assert((prev_map + seq![suffix.take(brk as int)]) + wrap_spec(
                    suffix.skip(brk as int + 1),
                    max as int,
                ) =~= prev_map + (seq![suffix.take(brk as int)] + wrap_spec(
                    suffix.skip(brk as int + 1),
                    max as int,
                )));
            } else {
                assert(k == 0);
                assert(last_space(suffix, m as int + 1) == -1);
                assert(wrap_spec(suffix, max as int) == seq![suffix.take(m as int)] + wrap_spec(
                    suffix.skip(m as int),
                    max as int,
                ));
                let line = sub_bytes(s, start, start + m);
                assert(line@ =~= suffix.take(m as int));
                lines.push(line);
                assert(lines@.map_values(|l: Vec<u8>| l@) =~= prev_map + seq![suffix.take(
                    m as int,
                )]);
                start = start + m;
                assert(s@.skip(start as int) =~= suffix.skip(m as int));
                assert((prev_map + seq![suffix.take(m as int)]) + wrap_spec(
                    suffix.skip(m as int),
                    max as int,
                ) =~= prev_map + (seq![suffix.take(m as int)] + wrap_spec(
                    suffix.skip(m as int),
                    max as int,
                )));
            }
        }
    }
    lines
}

} // verus!
