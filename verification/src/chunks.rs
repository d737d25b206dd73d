//! Chunk partitioner: cuts the input buffer into contiguous ranges, one per
//! worker, each ending right after a record terminator so that no record is
//! ever split across two chunks.

use vstd::prelude::*;

verus! {

/// Index of the first newline byte in `s[start..end)`, or `end` if there is
/// none.
pub open spec fn line_end(s: Seq<u8>, start: int, end: int) -> int
    decreases end - start,
{
    if start >= end {
        end
    } else if s[start] == 10 {
        start
    } else {
        line_end(s, start + 1, end)
    }
}

pub proof fn lemma_line_end_props(s: Seq<u8>, a: int, b: int)
    requires
        0 <= a <= b <= s.len(),
    ensures
        a <= line_end(s, a, b) <= b,
        line_end(s, a, b) < b ==> s[line_end(s, a, b)] == 10,
        forall|j: int| a <= j < line_end(s, a, b) ==> s[j] != 10,
    decreases b - a,
{
    if a < b && s[a] != 10 {
        lemma_line_end_props(s, a + 1, b);
    }
}

/// `line_end` is pinned by its characteristic properties.
pub proof fn lemma_line_end_unique(s: Seq<u8>, a: int, b: int, t: int)
    requires
        0 <= a <= t <= b <= s.len(),
        forall|j: int| a <= j < t ==> s[j] != 10,
        t < b ==> s[t] == 10,
    ensures
        line_end(s, a, b) == t,
    decreases t - a,
{
    if a < t {
        lemma_line_end_unique(s, a + 1, b, t);
    }
}

/// Index of the first newline byte of the slice, if any.
pub fn find_next_newline(data: &[u8]) -> (r: Option<usize>)
    ensures
        match r {
            Some(i) => i < data@.len() && data@[i as int] == 10 && forall|j: int|
                0 <= j < i ==> data@[j] != 10,
            None => forall|j: int| 0 <= j < data@.len() ==> data@[j] != 10,
        },
{
    let n: usize = data.len();
    let mut i: usize = 0;
    while i < n
        invariant
            n == data@.len(),
            i <= n,
            forall|j: int| 0 <= j < i ==> data@[j] != 10,
        decreases n - i,
    {
        if data[i] == 10 {
            return Some(i);
        }
        i = i + 1;
    }
    None
}

/// Where the chunk that begins at `start` ends, for an even target size of
/// `csize` bytes: the target position is pushed forward to just past the
/// next newline, or to the end of the buffer if none follows.
pub open spec fn spec_chunk_end(s: Seq<u8>, start: int, csize: int) -> int {
    if start + csize >= s.len() {
        s.len() as int
    } else {
        let t = line_end(s, start + csize, s.len() as int);
        if t < s.len() {
            t + 1
        } else {
            s.len() as int
        }
    }
}

/// Cuts `[0, buf.len())` into chunk ranges for `thread_count` workers.
///
/// The ranges exactly cover the buffer in order, with no gaps and no
/// overlaps, none is empty, and every range boundary except the final one
/// falls immediately after a newline byte. Each end is pinned to
/// `spec_chunk_end` for the even target size `len / thread_count`, so on a
/// short buffer fewer, larger chunks come out — never empty ones.
pub fn compute_chunk_ranges(buf: &[u8], thread_count: usize) -> (r: Vec<(usize, usize)>)
    requires
        thread_count >= 1,
    ensures
        ({
            let cs = (buf@.len() as int) / (thread_count as int);
            &&& (r@.len() == 0 <==> buf@.len() == 0)
            &&& forall|i: int| 0 <= i < r@.len() ==> (#[trigger] r@[i]).0 < r@[i].1 <= buf@.len()
            &&& (r@.len() > 0 ==> r@[0].0 == 0 && r@[r@.len() - 1].1 == buf@.len())
            &&& forall|i: int| 0 < i < r@.len() ==> (#[trigger] r@[i]).0 == r@[i - 1].1
            &&& forall|i: int|
                0 <= i < r@.len() ==> (#[trigger] r@[i]).1 == spec_chunk_end(
                    buf@,
                    r@[i].0 as int,
                    cs,
                )
            &&& forall|i: int| 0 <= i < r@.len() - 1 ==> buf@[(#[trigger] r@[i]).1 - 1] == 10
        }),
{
    let len: usize = buf.len();
    let chunk_size: usize = len / thread_count;
    let mut ranges: Vec<(usize, usize)> = Vec::new();
    let mut start: usize = 0;
    while start < len
        invariant
            len == buf@.len(),
            chunk_size == (len as int) / (thread_count as int),
            start <= len,
            ranges@.len() == 0 ==> start == 0,
            ranges@.len() > 0 ==> ranges@[ranges@.len() - 1].1 == start && ranges@[0].0 == 0,
            forall|i: int|
                0 <= i < ranges@.len() ==> (#[trigger] ranges@[i]).0 < ranges@[i].1 <= len,
            forall|i: int| 0 < i < ranges@.len() ==> (#[trigger] ranges@[i]).0 == ranges@[i - 1].1,
            forall|i: int|
                0 <= i < ranges@.len() ==> (#[trigger] ranges@[i]).1 == spec_chunk_end(
                    buf@,
                    ranges@[i].0 as int,
                    chunk_size as int,
                ),
            forall|i: int|
                0 <= i < ranges@.len() ==> ((#[trigger] ranges@[i]).1 < len ==> buf@[ranges@[i].1
                    - 1] == 10),
        decreases len - start,
    {
        let remaining: usize = len - start;
        let end_target: usize = if chunk_size >= remaining {
            len
        } else {
            start + chunk_size
        };
        let mut end: usize = end_target;
        if end < len {
            match find_next_newline(&buf[end..len]) {
                Some(p) => {
                    proof {
                        assert(buf@.subrange(end as int, len as int)[p as int] == buf@[end + p]);
                        assert forall|j: int| end <= j < end + p implies buf@[j] != 10 by {
                            assert(buf@.subrange(end as int, len as int)[j - end] == buf@[j]);
                        }
                        lemma_line_end_unique(buf@, end as int, len as int, end + p);
                    }
                    end = end + p + 1;
                },
                None => {
                    proof {
                        assert forall|j: int| end <= j < len implies buf@[j] != 10 by {
                            assert(buf@.subrange(end as int, len as int)[j - end] == buf@[j]);
                        }
                        lemma_line_end_unique(buf@, end as int, len as int, len as int);
                    }
                    end = len;
                },
            }
        }
        proof {
            assert(end == spec_chunk_end(buf@, start as int, chunk_size as int));
        }
        let ghost old_ranges = ranges@;
        ranges.push((start, end));
        proof {
            assert forall|i: int|
                0 <= i < ranges@.len() implies (#[trigger] ranges@[i]).0 < ranges@[i].1
                <= len by {
                if i < ranges@.len() - 1 {
                    assert(ranges@[i] == old_ranges[i]);
                }
            }
            assert forall|i: int|
                0 < i < ranges@.len() implies (#[trigger] ranges@[i]).0 == ranges@[i - 1].1 by {
                if i < ranges@.len() - 1 {
                    assert(ranges@[i] == old_ranges[i]);
                    assert(ranges@[i - 1] == old_ranges[i - 1]);
                } else {
                    assert(ranges@[i].0 == start);
                }
            }
            assert forall|i: int|
                0 <= i < ranges@.len() implies (#[trigger] ranges@[i]).1 == spec_chunk_end(
                buf@,
                ranges@[i].0 as int,
                chunk_size as int,
            ) by {
                if i < ranges@.len() - 1 {
                    assert(ranges@[i] == old_ranges[i]);
                }
            }
            assert forall|i: int|
                0 <= i < ranges@.len() && (#[trigger] ranges@[i]).1 < len implies buf@[ranges@[i].1
                    - 1] == 10 by {
                if i < ranges@.len() - 1 {
                    assert(ranges@[i] == old_ranges[i]);
                }
            }
        }
        start = end;
    }
    proof {
        assert forall|i: int| 0 <= i < ranges@.len() - 1 implies buf@[(#[trigger] ranges@[i]).1
            - 1] == 10 by {
            assert(ranges@[i + 1].0 == ranges@[i].1);
            assert(ranges@[i + 1].0 < ranges@[i + 1].1);
        }
    }
    ranges
}

} // verus!
