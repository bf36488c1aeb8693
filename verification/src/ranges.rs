//! Ranges of body lines, 1-based and inclusive.
use vstd::prelude::*;

verus! {

/// The range `(start, end)` covers line `i`.
pub open spec fn within(range: (usize, usize), i: int) -> bool {
    range.0 <= i <= range.1
}

/// One of the ranges covers line `i`.
pub open spec fn covered(ranges: Seq<(usize, usize)>, i: int) -> bool {
    exists|k: int| 0 <= k < ranges.len() && within(#[trigger] ranges[k], i)
}

/// No range is empty, they ascend, and between two of them there is a line that neither covers.
pub open spec fn ascending(ranges: Seq<(usize, usize)>) -> bool {
    &&& forall|k: int| 0 <= k < ranges.len() ==> (#[trigger] ranges[k]).0 <= ranges[k].1
    &&& forall|k: int, l: int|
        0 <= k < l < ranges.len() ==> (#[trigger] ranges[k]).1 + 1 < (#[trigger] ranges[l]).0
}

/// `result` is the complement of `ranges` over the lines from 1 to `len`, in its shortest form.
pub open spec fn inverted(
    result: Seq<(usize, usize)>,
    ranges: Seq<(usize, usize)>,
    len: usize,
) -> bool {
    &&& ascending(result)
    &&& forall|i: int|
        #[trigger] covered(result, i) <==> (1 <= i <= len && !covered(ranges, i))
}

/// The complement of `ranges` over the lines from 1 to `len`, in its shortest form.
pub open spec fn inverse(ranges: Seq<(usize, usize)>, len: usize) -> Seq<(usize, usize)> {
    choose|result: Seq<(usize, usize)>| inverted(result, ranges, len)
}

/// Ascending ranges with a line between any two are determined by the lines that they cover.
pub proof fn lemma_ascending_unique(a: Seq<(usize, usize)>, b: Seq<(usize, usize)>)
    requires
        ascending(a),
        ascending(b),
        forall|i: int| #[trigger] covered(a, i) == covered(b, i),
    ensures
        a == b,
    decreases a.len() + b.len(),
{
    if a.len() == 0 || b.len() == 0 {
        if a.len() > 0 {
            assert(within(a[0], a[0].0 as int));
            assert(covered(a, a[0].0 as int));
        }
        if b.len() > 0 {
            assert(within(b[0], b[0].0 as int));
            assert(covered(b, b[0].0 as int));
            assert(covered(a, b[0].0 as int));
        }
        assert(a =~= b);
    } else {
        lemma_last_reaches(a, b);
        lemma_last_reaches(b, a);
        let last = a.last();
        assert(b.last() == last);
        assert forall|i: int| #[trigger] covered(a.drop_last(), i) == covered(
            b.drop_last(),
            i,
        ) by {
            lemma_without_last(a, i);
            lemma_without_last(b, i);
            assert(covered(a, i) == covered(b, i));
        }
        lemma_ascending_unique(a.drop_last(), b.drop_last());
        assert(a =~= a.drop_last().push(last));
        assert(b =~= b.drop_last().push(last));
    }
}

/// The last of ascending ranges covers its own lines, and no other range any of them.
proof fn lemma_without_last(a: Seq<(usize, usize)>, i: int)
    requires
        ascending(a),
        a.len() > 0,
    ensures
        covered(a.drop_last(), i) == (covered(a, i) && !within(a.last(), i)),
        ascending(a.drop_last()),
{
    let front = a.drop_last();
    assert forall|k: int, l: int| 0 <= k < l < front.len() implies (#[trigger] front[k]).1 + 1
        < (#[trigger] front[l]).0 by {
        assert(a[k].1 + 1 < a[l].0);
    }
    assert forall|k: int| 0 <= k < front.len() implies (#[trigger] front[k]).0 <= front[k].1 by {
        assert(a[k].0 <= a[k].1);
    }
    if covered(front, i) {
        let k = choose|k: int| 0 <= k < front.len() && within(#[trigger] front[k], i);
        assert(a[k] == front[k]);
        assert(a[k].1 + 1 < a[a.len() - 1].0);
    }
    if covered(a, i) && !within(a.last(), i) {
        let k = choose|k: int| 0 <= k < a.len() && within(#[trigger] a[k], i);
        assert(front[k] == a[k]);
    }
}

/// Where `b` covers what `a` covers and no more, its last range ends and starts no earlier.
proof fn lemma_last_reaches(a: Seq<(usize, usize)>, b: Seq<(usize, usize)>)
    requires
        ascending(a),
        ascending(b),
        a.len() > 0,
        b.len() > 0,
        forall|i: int| #[trigger] covered(a, i) == covered(b, i),
    ensures
        a.last().1 <= b.last().1,
        a.last().1 == b.last().1 ==> a.last().0 <= b.last().0,
{
    let (start, end) = a.last();
    assert(within(a[a.len() - 1], end as int));
    assert(covered(a, end as int));
    assert(covered(b, end as int));
    let k = choose|k: int| 0 <= k < b.len() && within(#[trigger] b[k], end as int);
    if k < b.len() - 1 {
        assert(b[k].1 + 1 < b[b.len() - 1].0);
    }
    if end == b.last().1 && b.last().0 < start {
        let i = start - 1;
        assert(within(b[b.len() - 1], i));
        assert(covered(b, i));
        assert(covered(a, i));
        let l = choose|l: int| 0 <= l < a.len() && within(#[trigger] a[l], i);
        assert(a[l].1 + 1 < a[a.len() - 1].0);
    }
}

/// The complement over the lines from 1 to `len`, line by line.
proof fn lemma_complement_exists(ranges: Seq<(usize, usize)>, len: usize) -> (r: Seq<
    (usize, usize),
>)
    ensures
        inverted(r, ranges, len),
    decreases len,
{
    if len == 0 {
        let r = Seq::<(usize, usize)>::empty();
        assert(forall|i: int| !covered(r, i));
        r
    } else {
        let short = lemma_complement_exists(ranges, (len - 1) as usize);
        assert(forall|k: int| 0 <= k < short.len() ==> within(#[trigger] short[k], short[k].1 as int));
        assert forall|k: int| 0 <= k < short.len() implies (#[trigger] short[k]).1 < len by {
            assert(covered(short, short[k].1 as int));
        }
        if covered(ranges, len as int) {
            assert forall|i: int| #[trigger] covered(short, i) <==> (1 <= i <= len && !covered(
                ranges,
                i,
            )) by {}
            short
        } else if short.len() > 0 && short.last().1 == len - 1 {
            let front = short.drop_last();
            let last = (short.last().0, len);
            let r = front.push(last);
            assert forall|k: int, l: int| 0 <= k < l < r.len() implies (#[trigger] r[k]).1 + 1
                < (#[trigger] r[l]).0 by {
                assert(short[k].1 + 1 < short[l].0);
            }
            assert(r =~= front.insert(front.len() as int, last));
            assert(short =~= front.insert(front.len() as int, short.last()));
            assert forall|i: int| #[trigger] covered(r, i) <==> (1 <= i <= len && !covered(
                ranges,
                i,
            )) by {
                lemma_covered_insert(front, front.len() as int, last, i);
                lemma_covered_insert(front, front.len() as int, short.last(), i);
                assert(covered(short, i) <==> (1 <= i <= len - 1 && !covered(ranges, i)));
            }
            r
        } else {
            let r = short.push((len, len));
            assert forall|k: int, l: int| 0 <= k < l < r.len() implies (#[trigger] r[k]).1 + 1
                < (#[trigger] r[l]).0 by {
                if l < short.len() {
                    assert(short[k].1 + 1 < short[l].0);
                } else if k < short.len() - 1 {
                    assert(short[k].1 + 1 < short[short.len() - 1].0);
                }
            }
            assert(r =~= short.insert(short.len() as int, (len, len)));
            assert forall|i: int| #[trigger] covered(r, i) <==> (1 <= i <= len && !covered(
                ranges,
                i,
            )) by {
                lemma_covered_insert(short, short.len() as int, (len, len), i);
                assert(covered(short, i) <==> (1 <= i <= len - 1 && !covered(ranges, i)));
            }
            r
        }
    }
}

/// The inverse of ranges inverts them.
pub proof fn lemma_inverse_inverts(ranges: Seq<(usize, usize)>, len: usize)
    ensures
        inverted(inverse(ranges, len), ranges, len),
{
    let r = lemma_complement_exists(ranges, len);
}

/// What inverts ranges is their inverse.
proof fn lemma_inverse(result: Seq<(usize, usize)>, ranges: Seq<(usize, usize)>, len: usize)
    requires
        inverted(result, ranges, len),
    ensures
        result == inverse(ranges, len),
{
    let other = inverse(ranges, len);
    assert(inverted(other, ranges, len));
    assert forall|i: int| #[trigger] covered(result, i) == covered(other, i) by {}
    lemma_ascending_unique(result, other);
}

/// Ranges in the order of their starts.
spec fn by_start(ranges: Seq<(usize, usize)>) -> bool {
    forall|k: int, l: int|
        0 <= k < l < ranges.len() ==> (#[trigger] ranges[k]).0 <= (#[trigger] ranges[l]).0
}

/// The same ranges in the order of their starts.
fn sorted(ranges: &[(usize, usize)]) -> (r: Vec<(usize, usize)>)
    ensures
        by_start(r@),
        forall|i: int| #[trigger] covered(r@, i) == covered(ranges@, i),
{
    let mut out: Vec<(usize, usize)> = Vec::new();
    let mut n: usize = 0;
    while n < ranges.len()
        invariant
            n <= ranges@.len(),
            by_start(out@),
            forall|i: int| #[trigger] covered(out@, i) == covered(ranges@.take(n as int), i),
        decreases ranges@.len() - n,
    {
        let range = ranges[n];
        let mut at: usize = out.len();
        while at > 0 && out[at - 1].0 > range.0
            invariant
                at <= out@.len(),
                by_start(out@),
                forall|k: int| at <= k < out@.len() ==> (#[trigger] out@[k]).0 > range.0,
            decreases at,
        {
            at = at - 1;
        }
        let ghost before = out@;
        out.insert(at, range);
        proof {
            assert(out@ =~= before.insert(at as int, range));
            assert forall|i: int| #[trigger] covered(out@, i) == covered(
                ranges@.take(n + 1),
                i,
            ) by {
                lemma_covered_insert(before, at as int, range, i);
                lemma_covered_insert(ranges@.take(n as int), n as int, range, i);
                assert(ranges@.take(n + 1) =~= ranges@.take(n as int).insert(n as int, range));
                assert(covered(before, i) == covered(ranges@.take(n as int), i));
            }
            assert forall|k: int, l: int| 0 <= k < l < out@.len() implies (#[trigger] out@[k]).0
                <= (#[trigger] out@[l]).0 by {
                let a = if k < at { k } else { k - 1 };
                let b = if l < at { l } else { l - 1 };
                if k != at && l != at {
                    assert(before[a].0 <= before[b].0);
                } else if k == at {
                    assert(before[b].0 > range.0);
                } else {
                    assert(before[a].0 <= before[at - 1].0);
                }
            }
        }
        n = n + 1;
    }
    assert(ranges@.take(n as int) =~= ranges@);
    out
}

/// Another range covers its own lines beside those covered already.
proof fn lemma_covered_insert(
    ranges: Seq<(usize, usize)>,
    at: int,
    range: (usize, usize),
    i: int,
)
    requires
        0 <= at <= ranges.len(),
    ensures
        covered(ranges.insert(at, range), i) == (covered(ranges, i) || within(range, i)),
{
    let more = ranges.insert(at, range);
    if covered(ranges, i) {
        let k = choose|k: int| 0 <= k < ranges.len() && within(#[trigger] ranges[k], i);
        let l = if k < at { k } else { k + 1 };
        assert(more[l] == ranges[k]);
    }
    if within(range, i) {
        assert(more[at] == range);
    }
    if covered(more, i) {
        let l = choose|l: int| 0 <= l < more.len() && within(#[trigger] more[l], i);
        if l != at {
            let k = if l < at { l } else { l - 1 };
            assert(ranges[k] == more[l]);
        }
    }
}

/// Ranges seen end in front of `next`, or are empty.
spec fn seen_before(all: Seq<(usize, usize)>, n: int, next: usize) -> bool {
    forall|k: int| 0 <= k < n ==> (#[trigger] all[k]).1 < next || all[k].0 > all[k].1
}

/// The lines from `next` up to the start of the next range are in no range.
proof fn lemma_gap(all: Seq<(usize, usize)>, n: int, next: usize, start: usize, i: int)
    requires
        by_start(all),
        0 <= n <= all.len(),
        n < all.len() ==> start <= all[n].0,
        seen_before(all, n, next),
    ensures
        next <= i ==> !covered(all.take(n), i),
        i < start || n == all.len() ==> covered(all, i) == covered(all.take(n), i),
{
    let seen = all.take(n);
    if covered(seen, i) {
        let k = choose|k: int| 0 <= k < seen.len() && within(#[trigger] seen[k], i);
        assert(all[k] == seen[k]);
    }
    if covered(all, i) {
        let k = choose|k: int| 0 <= k < all.len() && within(#[trigger] all[k], i);
        if k < n {
            assert(all[k] == seen[k]);
        } else {
            assert(all[n].0 <= all[k].0);
        }
    }
}

/// With no further range up to `len`, the lines from `next` to `len` complete the complement.
proof fn lemma_tail(
    out: Seq<(usize, usize)>,
    all: Seq<(usize, usize)>,
    n: int,
    next: usize,
    len: usize,
)
    requires
        by_start(all),
        0 <= n <= all.len(),
        n < all.len() ==> len < all[n].0,
        seen_before(all, n, next),
        1 <= next <= len,
        forall|i: int| #[trigger]
            covered(out, i) <==> (1 <= i < next && !covered(all.take(n), i)),
    ensures
        forall|i: int| #[trigger]
            covered(out.push((next, len)), i) <==> (1 <= i <= len && !covered(all, i)),
{
    assert(out.push((next, len)) =~= out.insert(out.len() as int, (next, len)));
    assert forall|i: int| #[trigger] covered(out.push((next, len)), i) <==> (1 <= i <= len
        && !covered(all, i)) by {
        lemma_covered_insert(out, out.len() as int, (next, len), i);
        if n < all.len() {
            lemma_gap(all, n, next, all[n].0, i);
        } else {
            lemma_gap(all, n, next, len, i);
        }
        assert(covered(out, i) <==> (1 <= i < next && !covered(all.take(n), i)));
    }
}

/// The lines from 1 to `len` that no range covers.
fn complement(ranges: &[(usize, usize)], len: usize) -> (r: Vec<(usize, usize)>)
    ensures
        inverted(r@, ranges@, len),
{
    let all = sorted(ranges);
    let mut out: Vec<(usize, usize)> = Vec::new();
    if len == 0 {
        return out;
    }
    // The first line that nothing seen so far covers.
    let mut next: usize = 1;
    let mut n: usize = 0;
    let ghost mut far: int = 0;
    while n < all.len()
        invariant
            n <= all@.len(),
            next == 1 || (0 <= far < n && all@[far].0 <= all@[far].1 && all@[far].1 + 1 == next),
            1 <= next <= len,
            by_start(all@),
            ascending(out@),
            seen_before(all@, n as int, next),
            forall|k: int| 0 <= k < out@.len() ==> 1 <= (#[trigger] out@[k]).0 && out@[k].1 + 1
                < next,
            forall|i: int| #[trigger]
                covered(out@, i) <==> (1 <= i < next && !covered(all@.take(n as int), i)),
            forall|i: int| #[trigger] covered(all@, i) == covered(ranges@, i),
        decreases all@.len() - n,
    {
        let (start, end) = all[n];
        let ghost seen = all@.take(n as int);
        let ghost before = out@;
        let ghost was = next;
        let ghost top = far;
        proof {
            assert(all@.take(n + 1) =~= seen.insert(n as int, (start, end)));
        }
        n = n + 1;
        if start <= end {
            if start > len {
                // This range and those behind it lie beyond the last line.
                out.push((next, len));
                proof {
                    lemma_tail(before, all@, n - 1, was, len);
                }
                return out;
            }
            if start > next {
                out.push((next, start - 1));
                proof {
                    assert(out@ =~= before.insert(before.len() as int, (was, (start - 1) as usize)));
                }
            }
            if end >= len {
                proof {
                    assert forall|i: int| #[trigger] covered(out@, i) <==> (1 <= i <= len
                        && !covered(all@, i)) by {
                        lemma_covered_insert(before, before.len() as int, (was, (start - 1) as usize), i);
                        lemma_gap(all@, n - 1, was, start, i);
                        assert(within(all@[n - 1], i) ==> covered(all@, i));
                        if start <= i < was && 1 <= i {
                            assert(all@[top].0 <= all@[n - 1].0);
                            assert(seen[top] == all@[top]);
                            assert(within(seen[top], i));
                        }
                        assert(covered(before, i) <==> (1 <= i < was && !covered(seen, i)));
                    }
                }
                return out;
            }
            if end >= next {
                next = end + 1;
                proof {
                    far = n - 1;
                }
            }
            proof {
                assert forall|i: int| #[trigger] covered(out@, i) <==> (1 <= i < next
                    && !covered(all@.take(n as int), i)) by {
                    lemma_covered_insert(before, before.len() as int, (was, (start - 1) as usize), i);
                    lemma_covered_insert(seen, n - 1, (start, end), i);
                    lemma_gap(all@, n - 1, was, start, i);
                    if start <= i < was && 1 <= i {
                        assert(all@[top].0 <= all@[n - 1].0);
                        assert(seen[top] == all@[top]);
                        assert(within(seen[top], i));
                    }
                    assert(covered(before, i) <==> (1 <= i < was && !covered(seen, i)));
                }
            }
        } else {
            proof {
                assert forall|i: int| #[trigger] covered(out@, i) <==> (1 <= i < next
                    && !covered(all@.take(n as int), i)) by {
                    lemma_covered_insert(seen, n - 1, (start, end), i);
                    assert(covered(before, i) <==> (1 <= i < was && !covered(seen, i)));
                }
            }
        }
    }
    let ghost before = out@;
    out.push((next, len));
    proof {
        lemma_tail(before, all@, n as int, next, len);
    }
    out
}

/// Inverts ranges over the lines from 1 to `len`. The ranges may be unsorted or overlap, and one
/// whose start lies behind its end covers nothing; the result is sorted and disjoint.
pub fn invert_ranges(ranges: &[(usize, usize)], len: usize) -> (r: Vec<(usize, usize)>)
    ensures
        inverted(r@, ranges@, len),
        r@ == inverse(ranges@, len),
{
    let r = complement(ranges, len);
    proof {
        lemma_inverse(r@, ranges@, len);
    }
    r
}

} // verus!
