//! Chunk scanner: tokenizes one byte range into `key;value` records and
//! folds them into a statistics table, together with the record model the
//! contracts speak of and the partition-invariance law.

use crate::chunks::{lemma_line_end_props, lemma_line_end_unique, line_end};
use crate::parse::{fast_parse_float_to_int, parse_decimal, valid_decimal_bytes};
use crate::table::{
    lemma_headroom_dominated, lemma_table_merge_empty, lemma_valid_stats_join, stats_dominates,
    stats_headroom, stats_join, stats_one, table_add, table_merge, table_ok, table_valid,
    valid_stats, Stats, StatsTable,
};
use vstd::prelude::*;

verus! {

/// Index of the last separator byte strictly after `ls` in the line
/// `[ls, le)`; `ls` itself when the line has none.
pub open spec fn last_sep(s: Seq<u8>, ls: int, le: int) -> int
    decreases le - ls,
{
    if le <= ls + 1 {
        ls
    } else if s[le - 1] == 59 {
        le - 1
    } else {
        last_sep(s, ls, le - 1)
    }
}

/// The record of the line `[ls, le)`: the key before the last separator and
/// the parsed value after it. A line whose separator does not follow a
/// nonempty key yields no record and is skipped.
pub open spec fn line_record(s: Seq<u8>, ls: int, le: int) -> Option<(Seq<u8>, int)> {
    let j = last_sep(s, ls, le);
    if j > ls {
        Some((s.subrange(ls, j), parse_decimal(s.subrange(j + 1, le))))
    } else {
        None
    }
}

/// The line's record as a sequence of zero or one records.
pub open spec fn line_records(s: Seq<u8>, ls: int, le: int) -> Seq<(Seq<u8>, int)> {
    match line_record(s, ls, le) {
        Some(r) => seq![r],
        None => Seq::empty(),
    }
}

/// All records of the region `[start, end)`, line by line; a final line
/// without a terminator still counts as a complete record.
pub open spec fn scan_records(s: Seq<u8>, start: int, end: int) -> Seq<(Seq<u8>, int)>
    decreases end - start,
{
    if start >= end {
        Seq::empty()
    } else {
        let t = line_end(s, start, end);
        if start <= t && t + 1 <= end {
            line_records(s, start, t) + scan_records(s, t + 1, end)
        } else {
            line_records(s, start, t)
        }
    }
}

/// Every value field of a record in the region is a well-formed decimal
/// small enough for the parser.
pub open spec fn region_values_ok(s: Seq<u8>, start: int, end: int) -> bool
    decreases end - start,
{
    if start >= end {
        true
    } else {
        let t = line_end(s, start, end);
        let j = last_sep(s, start, t);
        let head_ok = j > start ==> valid_decimal_bytes(s.subrange(j + 1, t));
        if start <= t && t + 1 <= end {
            head_ok && region_values_ok(s, t + 1, end)
        } else {
            head_ok
        }
    }
}

/// The table a record sequence folds to.
pub open spec fn table_of_records(recs: Seq<(Seq<u8>, int)>) -> Map<Seq<u8>, Stats>
    decreases recs.len(),
{
    if recs.len() == 0 {
        Map::empty()
    } else {
        table_add(table_of_records(recs.drop_last()), recs.last().0, recs.last().1)
    }
}

/// Scanning splits at any position that starts a line: the records of the
/// whole region are the records of the two parts, in order, and the value
/// fields stay well formed part by part.
pub proof fn lemma_scan_split(s: Seq<u8>, a: int, b: int, c: int)
    requires
        0 <= a <= b <= c <= s.len(),
        b == a || b == c || s[b - 1] == 10,
    ensures
        scan_records(s, a, c) == scan_records(s, a, b) + scan_records(s, b, c),
        region_values_ok(s, a, c) ==> region_values_ok(s, a, b) && region_values_ok(s, b, c),
    decreases b - a,
{
    if a == b {
        assert(scan_records(s, a, b) =~= Seq::empty());
        assert(Seq::empty() + scan_records(s, b, c) =~= scan_records(s, b, c));
    } else if b == c {
        assert(scan_records(s, b, c) =~= Seq::empty());
        assert(scan_records(s, a, b) + Seq::empty() =~= scan_records(s, a, b));
    } else {
        lemma_line_end_props(s, a, c);
        let t = line_end(s, a, c);
        assert(t <= b - 1) by {
            if t > b - 1 {
                assert(s[b - 1] != 10);
            }
        }
        lemma_line_end_unique(s, a, b, t);
        lemma_scan_split(s, t + 1, b, c);
        let head = line_records(s, a, t);
        assert(scan_records(s, a, c) == head + scan_records(s, t + 1, c));
        assert(scan_records(s, a, b) == head + scan_records(s, t + 1, b));
        assert((head + scan_records(s, t + 1, b)) + scan_records(s, b, c) =~= head + (scan_records(
            s,
            t + 1,
            b,
        ) + scan_records(s, b, c)));
    }
}

/// Folding one observation commutes with merging a table in from the left.
pub proof fn lemma_table_add_merge(
    a: Map<Seq<u8>, Stats>,
    b: Map<Seq<u8>, Stats>,
    k: Seq<u8>,
    v: int,
)
    ensures
        table_add(table_merge(a, b), k, v) == table_merge(a, table_add(b, k, v)),
{
    if a.dom().contains(k) && b.dom().contains(k) {
        crate::table::lemma_stats_join_associative(a[k], b[k], stats_one(v));
    }
    assert(table_add(table_merge(a, b), k, v) =~= table_merge(a, table_add(b, k, v)));
}

/// The table of records laid end to end is the merge of the two tables.
pub proof fn lemma_table_of_records_concat(r1: Seq<(Seq<u8>, int)>, r2: Seq<(Seq<u8>, int)>)
    ensures
        table_of_records(r1 + r2) == table_merge(table_of_records(r1), table_of_records(r2)),
    decreases r2.len(),
{
    if r2.len() == 0 {
        assert(r1 + r2 =~= r1);
        lemma_table_merge_empty(table_of_records(r1));
    } else {
        let rec = r2.last();
        assert((r1 + r2).drop_last() =~= r1 + r2.drop_last());
        assert((r1 + r2).last() == rec);
        lemma_table_of_records_concat(r1, r2.drop_last());
        lemma_table_add_merge(
            table_of_records(r1),
            table_of_records(r2.drop_last()),
            rec.0,
            rec.1,
        );
    }
}

/// Every entry of a folded table is a valid summary.
pub proof fn lemma_table_of_records_valid(recs: Seq<(Seq<u8>, int)>)
    ensures
        table_valid(table_of_records(recs)),
    decreases recs.len(),
{
    if recs.len() > 0 {
        lemma_table_of_records_valid(recs.drop_last());
        let m = table_of_records(recs.drop_last());
        let k = recs.last().0;
        let v = recs.last().1;
        assert(valid_stats(stats_one(v))) by {
            assert(1 * v == v);
        }
        if m.dom().contains(k) {
            lemma_valid_stats_join(m[k], stats_one(v));
        }
    }
}

/// `small` holds, per key, a sub-summary of `big`.
pub open spec fn table_dominated(small: Map<Seq<u8>, Stats>, big: Map<Seq<u8>, Stats>) -> bool {
    forall|k: Seq<u8>| #[trigger]
        small.dom().contains(k) ==> big.dom().contains(k) && stats_dominates(big[k], small[k])
}

/// The table of a prefix of the records is dominated by the table of all of
/// them: every entry summarizes no more observations over no wider a range.
pub proof fn lemma_table_prefix_dominated(recs: Seq<(Seq<u8>, int)>, n: int)
    requires
        0 <= n <= recs.len(),
    ensures
        table_dominated(table_of_records(recs.take(n)), table_of_records(recs)),
    decreases recs.len() - n,
{
    lemma_table_of_records_valid(recs.take(n));
    if n == recs.len() {
        assert(recs.take(n) =~= recs);
    } else {
        lemma_table_prefix_dominated(recs, n + 1);
        lemma_table_of_records_valid(recs.take(n + 1));
        let m0 = table_of_records(recs.take(n));
        let m1 = table_of_records(recs.take(n + 1));
        let m2 = table_of_records(recs);
        assert(recs.take(n + 1).drop_last() =~= recs.take(n));
        assert(m1 == table_add(m0, recs[n].0, recs[n].1));
        assert forall|k: Seq<u8>| #[trigger] m0.dom().contains(k) implies m2.dom().contains(k)
            && stats_dominates(m2[k], m0[k]) by {
            assert(m1.dom().contains(k));
            assert(stats_dominates(m1[k], m0[k]));
        }
    }
}

/// Scans the byte range `[start, end)` and folds every complete record into
/// a fresh local table. On a separator byte the pending split point moves;
/// on a terminator (or at the end of the range, for a final record without
/// one) the line is cut at the split point, its value parsed, and the pair
/// folded in; lines without a separator after a nonempty key are skipped.
pub fn scan_chunk(buf: &[u8], start: usize, end: usize) -> (t: StatsTable)
    requires
        start <= end <= buf@.len(),
        region_values_ok(buf@, start as int, end as int),
        table_ok(table_of_records(scan_records(buf@, start as int, end as int))),
    ensures
        t.wf(),
        t@ == table_of_records(scan_records(buf@, start as int, end as int)),
{
    let ghost s = buf@;
    let ghost full = scan_records(s, start as int, end as int);
    let mut table = StatsTable::new();
    let mut last_newline: usize = start;
    let mut last_split_at: usize = start;
    let mut i: usize = start;
    while i < end
        invariant
            s == buf@,
            start <= last_newline,
            last_newline <= i <= end <= s.len(),
            full == scan_records(s, start as int, end as int),
            table_ok(table_of_records(full)),
            table.wf(),
            table@ == table_of_records(scan_records(s, start as int, last_newline as int)),
            full == scan_records(s, start as int, last_newline as int) + scan_records(
                s,
                last_newline as int,
                end as int,
            ),
            region_values_ok(s, last_newline as int, end as int),
            last_newline == start || s[last_newline - 1] == 10,
            forall|j: int| last_newline <= j < i ==> s[j] != 10,
            last_newline <= last_split_at,
            last_split_at as int == last_sep(s, last_newline as int, i as int),
            last_split_at > last_newline ==> last_split_at < i && s[last_split_at as int] == 59,
        decreases end - i,
    {
        let b = buf[i];
        if b == 59 {
            last_split_at = i;
        } else if b == 10 {
            proof {
                lemma_line_end_unique(s, last_newline as int, end as int, i as int);
            }
            let ghost ln = last_newline as int;
            let ghost head = line_records(s, ln, i as int);
            let ghost processed = scan_records(s, start as int, ln);
            proof {
                assert(scan_records(s, ln, end as int) == head + scan_records(
                    s,
                    i + 1,
                    end as int,
                ));
                assert(full =~= (processed + head) + scan_records(s, i + 1, end as int));
                // the region past this line stays well formed, and this
                // line's value field is well formed when a record is cut
                assert(region_values_ok(s, i + 1, end as int));
            }
            if last_split_at > last_newline {
                let key: &[u8] = &buf[last_newline..last_split_at];
                let vbytes: &[u8] = &buf[(last_split_at + 1)..i];
                proof {
                    assert(valid_decimal_bytes(vbytes@));
                }
                let value = fast_parse_float_to_int(vbytes);
                let ghost rec = (s.subrange(ln, last_split_at as int), value as int);
                let ghost processed2 = processed + head;
                proof {
                    assert(head =~= seq![rec]);
                    assert(processed2.drop_last() =~= processed);
                    assert(processed2.last() == rec);
                    assert(table_of_records(processed2) == table_add(
                        table@,
                        key@,
                        value as int,
                    ));
                    assert(full.take(processed2.len() as int) =~= processed2);
                    lemma_table_of_records_valid(processed2);
                    lemma_table_prefix_dominated(full, processed2.len() as int);
                    lemma_table_ok_dominated(table_of_records(processed2), table_of_records(full));
                    assert(table_of_records(processed2).dom().contains(key@));
                }
                table.add_observation(key, value);
            } else {
                proof {
                    assert(head =~= Seq::<(Seq<u8>, int)>::empty());
                    assert(processed + head =~= processed);
                }
            }
            proof {
                lemma_scan_split(s, start as int, ln, i + 1);
                assert(scan_records(s, ln, i + 1) == head + scan_records(s, i + 1, i + 1)) by {
                    lemma_line_end_unique(s, ln, i + 1, i as int);
                }
                assert(scan_records(s, i + 1, i + 1) =~= Seq::<(Seq<u8>, int)>::empty());
                assert(scan_records(s, ln, i + 1) =~= head);
                assert(scan_records(s, start as int, i + 1) =~= processed + head);
            }
            last_newline = i + 1;
            last_split_at = i + 1;
        }
        i = i + 1;
    }
    // the final line, complete even without a terminator
    if last_newline < end {
        proof {
            lemma_line_end_unique(s, last_newline as int, end as int, end as int);
        }
        let ghost ln = last_newline as int;
        let ghost head = line_records(s, ln, end as int);
        let ghost processed = scan_records(s, start as int, ln);
        proof {
            assert(scan_records(s, ln, end as int) == head);
            assert(full =~= processed + head);
        }
        if last_split_at > last_newline {
            let key: &[u8] = &buf[last_newline..last_split_at];
            let vbytes: &[u8] = &buf[(last_split_at + 1)..end];
            proof {
                assert(valid_decimal_bytes(vbytes@));
            }
            let value = fast_parse_float_to_int(vbytes);
            let ghost rec = (s.subrange(ln, last_split_at as int), value as int);
            proof {
                assert(head =~= seq![rec]);
                assert(full.drop_last() =~= processed);
                assert(full.last() == rec);
                assert(table_of_records(full) == table_add(table@, key@, value as int));
                assert(table_of_records(full).dom().contains(key@));
            }
            table.add_observation(key, value);
        } else {
            proof {
                assert(head =~= Seq::<(Seq<u8>, int)>::empty());
                assert(full =~= processed);
            }
        }
    } else {
        proof {
            assert(scan_records(s, last_newline as int, end as int) =~= Seq::<
                (Seq<u8>, int),
            >::empty());
            assert(full =~= scan_records(s, start as int, last_newline as int));
        }
    }
    table
}

/// A sub-summary of a table all of whose entries have headroom has headroom
/// itself.
pub proof fn lemma_table_ok_dominated(small: Map<Seq<u8>, Stats>, big: Map<Seq<u8>, Stats>)
    requires
        table_ok(big),
        table_valid(small),
        table_dominated(small, big),
    ensures
        table_ok(small),
{
    assert forall|k: Seq<u8>| #[trigger] small.dom().contains(k) implies stats_headroom(
        small[k],
    ) by {
        lemma_headroom_dominated(big[k], small[k]);
    }
}

/// Each side of a merge is a sub-summary of the merged table.
pub proof fn lemma_merge_dominates(a: Map<Seq<u8>, Stats>, b: Map<Seq<u8>, Stats>)
    requires
        table_valid(a),
        table_valid(b),
    ensures
        table_dominated(a, table_merge(a, b)),
        table_dominated(b, table_merge(a, b)),
{
}

pub proof fn lemma_table_dominated_trans(
    a: Map<Seq<u8>, Stats>,
    b: Map<Seq<u8>, Stats>,
    c: Map<Seq<u8>, Stats>,
)
    requires
        table_dominated(a, b),
        table_dominated(b, c),
    ensures
        table_dominated(a, c),
{
    assert forall|k: Seq<u8>| #[trigger] a.dom().contains(k) implies c.dom().contains(k)
        && stats_dominates(c[k], a[k]) by {
        assert(b.dom().contains(k));
    }
}

/// Merging two valid tables keeps every entry valid.
pub proof fn lemma_merge_valid(a: Map<Seq<u8>, Stats>, b: Map<Seq<u8>, Stats>)
    requires
        table_valid(a),
        table_valid(b),
    ensures
        table_valid(table_merge(a, b)),
{
    assert forall|k: Seq<u8>| #[trigger] table_merge(a, b).dom().contains(k) implies valid_stats(
        table_merge(a, b)[k],
    ) by {
        if a.dom().contains(k) && b.dom().contains(k) {
            lemma_valid_stats_join(a[k], b[k]);
        }
    }
}

/// For one line-aligned chunk `[a, b)` of a buffer whose whole table has
/// `i32` headroom: the chunk's value fields are well formed, its table and
/// the merged table of everything up to `b` have headroom too, and merging
/// the chunk's table onto the table of `[0, a)` covers exactly `[0, b)`.
pub proof fn lemma_chunk_step(s: Seq<u8>, a: int, b: int)
    requires
        0 <= a <= b <= s.len(),
        a == 0 || s[a - 1] == 10,
        b == s.len() || s[b - 1] == 10,
        region_values_ok(s, 0, s.len() as int),
        table_ok(table_of_records(scan_records(s, 0, s.len() as int))),
    ensures
        region_values_ok(s, a, b),
        table_ok(table_of_records(scan_records(s, a, b))),
        table_ok(
            table_merge(
                table_of_records(scan_records(s, 0, a)),
                table_of_records(scan_records(s, a, b)),
            ),
        ),
        table_merge(
            table_of_records(scan_records(s, 0, a)),
            table_of_records(scan_records(s, a, b)),
        ) == table_of_records(scan_records(s, 0, b)),
{
    let len = s.len() as int;
    let full = scan_records(s, 0, len);
    lemma_scan_split(s, 0, a, len);
    lemma_scan_split(s, a, b, len);
    let t1 = table_of_records(scan_records(s, 0, a));
    let t2 = table_of_records(scan_records(s, a, b));
    let t3 = table_of_records(scan_records(s, b, len));
    lemma_table_of_records_valid(scan_records(s, 0, a));
    lemma_table_of_records_valid(scan_records(s, a, b));
    lemma_table_of_records_valid(scan_records(s, b, len));
    // the chunk's table is a sub-summary of the whole table
    lemma_table_of_records_concat(scan_records(s, a, b), scan_records(s, b, len));
    lemma_table_of_records_concat(
        scan_records(s, 0, a),
        scan_records(s, a, b) + scan_records(s, b, len),
    );
    assert(scan_records(s, 0, a) + (scan_records(s, a, b) + scan_records(s, b, len)) =~= full);
    lemma_merge_valid(t2, t3);
    lemma_merge_dominates(t2, t3);
    lemma_merge_dominates(t1, table_merge(t2, t3));
    lemma_table_dominated_trans(t2, table_merge(t2, t3), table_merge(t1, table_merge(t2, t3)));
    lemma_table_ok_dominated(t2, table_of_records(full));
    // the merged table up to b is a prefix-summary of the whole table
    lemma_table_of_records_concat(scan_records(s, 0, a), scan_records(s, a, b));
    lemma_scan_split(s, 0, a, b);
    lemma_scan_split(s, 0, b, len);
    lemma_table_of_records_valid(scan_records(s, 0, b));
    assert(scan_records(s, 0, a) + scan_records(s, a, b) =~= scan_records(s, 0, b));
    assert(full.take(scan_records(s, 0, b).len() as int) =~= scan_records(s, 0, b));
    lemma_table_prefix_dominated(full, scan_records(s, 0, b).len() as int);
    lemma_table_ok_dominated(table_of_records(scan_records(s, 0, b)), table_of_records(full));
}

/// The tables of the given ranges, scanned separately and merged in order.
pub open spec fn merged_range_tables(s: Seq<u8>, rs: Seq<(int, int)>) -> Map<Seq<u8>, Stats>
    decreases rs.len(),
{
    if rs.len() == 0 {
        Map::empty()
    } else {
        table_merge(
            merged_range_tables(s, rs.drop_last()),
            table_of_records(scan_records(s, rs.last().0, rs.last().1)),
        )
    }
}

/// Law (partition invariance): scanning the chunks of any line-aligned
/// partition separately and merging the local tables yields the same table
/// as scanning the whole region as one chunk.
pub proof fn lemma_partition_invariance(s: Seq<u8>, rs: Seq<(int, int)>)
    requires
        rs.len() > 0,
        0 <= rs[0].0,
        forall|i: int| 0 <= i < rs.len() ==> (#[trigger] rs[i]).0 <= rs[i].1 <= s.len(),
        forall|i: int| 0 < i < rs.len() ==> (#[trigger] rs[i]).0 == rs[i - 1].1,
        forall|i: int| 0 < i < rs.len() ==> (#[trigger] rs[i]).0 == rs[0].0 || s[rs[i].0 - 1] == 10,
    ensures
        merged_range_tables(s, rs) == table_of_records(
            scan_records(s, rs[0].0, rs[rs.len() - 1].1),
        ),
        rs[0].0 <= rs[rs.len() - 1].1,
    decreases rs.len(),
{
    if rs.len() == 1 {
        lemma_table_merge_empty(table_of_records(scan_records(s, rs[0].0, rs[0].1)));
        assert(merged_range_tables(s, rs.drop_last()) == Map::<Seq<u8>, Stats>::empty());
    } else {
        let rs0 = rs.drop_last();
        assert forall|i: int| 0 <= i < rs0.len() implies (#[trigger] rs0[i]).0 <= rs0[i].1
            <= s.len() by {
            assert(rs0[i] == rs[i]);
        }
        assert forall|i: int| 0 < i < rs0.len() implies (#[trigger] rs0[i]).0 == rs0[i - 1].1 by {
            assert(rs0[i] == rs[i]);
            assert(rs0[i - 1] == rs[i - 1]);
        }
        assert forall|i: int| 0 < i < rs0.len() implies (#[trigger] rs0[i]).0 == rs0[0].0
            || s[rs0[i].0 - 1] == 10 by {
            assert(rs0[i] == rs[i]);
            assert(rs0[0] == rs[0]);
        }
        lemma_partition_invariance(s, rs0);
        let a = rs[0].0;
        let b = rs[rs.len() - 1].0;
        let c = rs[rs.len() - 1].1;
        assert(rs0[rs0.len() - 1] == rs[rs.len() - 2]);
        assert(b == rs[rs.len() - 2].1);
        assert(b == a || s[b - 1] == 10);
        lemma_scan_split(s, a, b, c);
        lemma_table_of_records_concat(scan_records(s, a, b), scan_records(s, b, c));
    }
}

} // verus!
