//! Per-key summary statistics (minimum, mean, maximum) over a delimited byte
//! buffer: records of the form `key;value` separated by newline bytes, where
//! `value` is a signed decimal with at most one fractional digit, held
//! internally as an integer number of tenths.
//!
//! The engine is split into the pieces a caller composes: a decimal parser, a
//! chunk partitioner that cuts the buffer on record boundaries, a chunk
//! scanner that folds one range into a statistics table, a merge step that
//! combines worker-local tables, and a formatter that renders the merged
//! table sorted by key. A concurrent caller runs one scanner per chunk and
//! merges the local tables in any order; `summarize` composes the same steps
//! in one thread.

pub mod chunks;
pub mod parse;
pub mod render;
pub mod scan;
pub mod table;

use crate::chunks::compute_chunk_ranges;
use crate::render::{format_output, sorted_distinct_keys, spec_output, table_of_pairs};
use crate::scan::{
    lemma_chunk_step, region_values_ok, scan_chunk, scan_records, table_of_records,
};
use crate::table::{table_ok, Stats, StatsTable};
use vstd::prelude::*;

verus! {

/// Runs the whole pipeline over the buffer: partition into `thread_count`
/// line-aligned chunks, scan each chunk into a local table, merge the local
/// tables, and render the merged table sorted by key. The output is the
/// rendering of the strictly key-ascending entry list of the table that
/// scanning the whole buffer yields, by partition invariance the same table
/// the per-chunk scans merge to.
#[verifier::rlimit(60)]
pub fn summarize(buf: &[u8], thread_count: usize) -> (out: Vec<u8>)
    requires
        thread_count >= 1,
        region_values_ok(buf@, 0, buf@.len() as int),
        table_ok(table_of_records(scan_records(buf@, 0, buf@.len() as int))),
    ensures
        exists|es: Seq<(Seq<u8>, Stats)>|
            sorted_distinct_keys(es) && #[trigger] table_of_pairs(es) == table_of_records(
                scan_records(buf@, 0, buf@.len() as int),
            ) && out@ == spec_output(es),
{
    let ghost s = buf@;
    let ghost len = s.len() as int;
    let ghost full = scan_records(s, 0, len);
    let ranges = compute_chunk_ranges(buf, thread_count);
    let mut global = StatsTable::new();
    let mut i: usize = 0;
    let ghost mut cov: int = 0;
    while i < ranges.len()
        invariant
            s == buf@,
            len == s.len() as int,
            full == scan_records(s, 0, len),
            region_values_ok(s, 0, len),
            table_ok(table_of_records(full)),
            i <= ranges@.len(),
            forall|k: int|
                0 <= k < ranges@.len() ==> (#[trigger] ranges@[k]).0 < ranges@[k].1 <= len,
            ranges@.len() > 0 ==> ranges@[0].0 == 0 && ranges@[ranges@.len() - 1].1 == len,
            forall|k: int| 0 < k < ranges@.len() ==> (#[trigger] ranges@[k]).0 == ranges@[k - 1].1,
            forall|k: int| 0 <= k < ranges@.len() - 1 ==> s[(#[trigger] ranges@[k]).1 - 1] == 10,
            (i as int) < ranges@.len() ==> cov == ranges@[i as int].0,
            i as int == ranges@.len() ==> cov == len,
            0 <= cov <= len,
            cov == 0 || cov == len || s[cov - 1] == 10,
            global.wf(),
            global@ == table_of_records(scan_records(s, 0, cov)),
        decreases ranges@.len() - i,
    {
        let range = ranges[i];
        let st = range.0;
        let en = range.1;
        proof {
            assert(st as int == cov);
            assert(cov < len);
            if (en as int) < len {
                assert(s[en - 1] == 10);
            }
            lemma_chunk_step(s, cov, en as int);
        }
        let local = scan_chunk(buf, st, en);
        global.merge_from(local);
        proof {
            cov = en as int;
        }
        i = i + 1;
    }
    proof {
        assert(global@ == table_of_records(full));
    }
    let out = format_output(global);
    proof {
        let es = choose|es: Seq<(Seq<u8>, Stats)>|
            sorted_distinct_keys(es) && #[trigger] table_of_pairs(es) == table_of_records(full)
                && out@ == spec_output(es);
        assert(sorted_distinct_keys(es) && table_of_pairs(es) == table_of_records(
            scan_records(buf@, 0, buf@.len() as int),
        ) && out@ == spec_output(es));
    }
    out
}

} // verus!
