//! Result formatter: renders the merged table, sorted by key, as
//! `{key1=min/mean/max, key2=min/mean/max, ...}` with every numeric field in
//! tenths shown with exactly one fractional digit. The mean is the sum over
//! the count rounded upward to the next tenth.

use crate::table::{
    lemma_table_of_entries_dom, lemma_table_of_entries_index, table_of_entries, unique_names,
    valid_stats, City, Stats, StatsTable,
};
use vstd::arithmetic::div_mod::{
    lemma_fundamental_div_mod, lemma_fundamental_div_mod_converse, lemma_div_is_ordered,
};
use vstd::prelude::*;

verus! {

/// Decimal digit bytes of `n`, most significant first.
pub open spec fn spec_digits(n: nat) -> Seq<u8>
    decreases n,
{
    if n < 10 {
        seq![(48 + n) as u8]
    } else {
        spec_digits(n / 10).push((48 + n % 10) as u8)
    }
}

/// Rounding a quotient upward: the least integer at or above `a / b`,
/// for `b > 0`.
pub open spec fn ceil_div(a: int, b: int) -> int {
    (a + b - 1) / b
}

/// The mean of an entry, in tenths, rounded upward.
pub open spec fn mean_tenths(st: Stats) -> int {
    ceil_div(st.sum, st.count)
}

/// A tenths value rendered with one fractional digit: optional minus sign,
/// the whole part, a point, one digit.
pub open spec fn spec_tenths(v: int) -> Seq<u8> {
    let m = if v < 0 {
        -v
    } else {
        v
    };
    let sign: Seq<u8> = if v < 0 {
        seq![45u8]
    } else {
        Seq::empty()
    };
    sign + spec_digits((m / 10) as nat) + seq![46u8] + spec_digits((m % 10) as nat)
}

/// One rendered entry: `key=min/mean/max`.
pub open spec fn spec_entry(name: Seq<u8>, st: Stats) -> Seq<u8> {
    name + seq![61u8] + spec_tenths(st.min) + seq![47u8] + spec_tenths(mean_tenths(st)) + seq![47u8]
        + spec_tenths(st.max)
}

/// Entries rendered in order, joined by `, `.
pub open spec fn spec_entries(es: Seq<(Seq<u8>, Stats)>) -> Seq<u8>
    decreases es.len(),
{
    if es.len() == 0 {
        Seq::empty()
    } else if es.len() == 1 {
        spec_entry(es[0].0, es[0].1)
    } else {
        spec_entries(es.drop_last()) + seq![44u8, 32u8] + spec_entry(es.last().0, es.last().1)
    }
}

/// The whole output line: the rendered entries wrapped in braces.
pub open spec fn spec_output(es: Seq<(Seq<u8>, Stats)>) -> Seq<u8> {
    seq![123u8] + spec_entries(es) + seq![125u8]
}

/// Appends the decimal digits of `n`.
fn push_digits(out: &mut Vec<u8>, n: u64)
    ensures
        final(out)@ == old(out)@ + spec_digits(n as nat),
    decreases n,
{
    if n < 10 {
        out.push(48 + (n as u8));
        proof {
            assert(final(out)@ =~= old(out)@ + spec_digits(n as nat));
        }
    } else {
        push_digits(out, n / 10);
        out.push(48 + ((n % 10) as u8));
        proof {
            assert((n / 10) as nat == (n as nat) / 10);
            assert((n % 10) as nat == (n as nat) % 10);
            assert(final(out)@ =~= old(out)@ + spec_digits(n as nat));
        }
    }
}

/// The upward-rounded quotient of a sum of observations over their count.
fn div_ceil_tenths(sum: i32, count: i32) -> (r: i32)
    requires
        1 <= count,
    ensures
        r as int == ceil_div(sum as int, count as int),
{
    let ghost a: int = sum as int;
    let ghost b: int = count as int;
    if sum >= 0 {
        let num: u64 = (sum as u64) + (count as u64) - 1;
        let q: u64 = num / (count as u64);
        proof {
            assert(a <= a * b) by (nonlinear_arith)
                requires
                    0 <= a,
                    1 <= b,
            ;
            lemma_div_is_ordered(a + b - 1, a * b + b - 1, b);
            lemma_fundamental_div_mod_converse(a * b + b - 1, b, a, b - 1);
            assert(q as int == ceil_div(a, b));
            assert(q <= a);
        }
        q as i32
    } else {
        let m: u64 = (-(sum as i64)) as u64;
        let q: u64 = m / (count as u64);
        let r64: i64 = -(q as i64);
        proof {
            lemma_fundamental_div_mod(-a, b);
            let q2 = (-a) / b;
            let r2 = (-a) % b;
            assert(a + b - 1 == (-q2) * b + (b - 1 - r2)) by (nonlinear_arith)
                requires
                    -a == b * q2 + r2,
            ;
            lemma_fundamental_div_mod_converse(a + b - 1, b, -q2, b - 1 - r2);
            assert(ceil_div(a, b) == -q2);
            assert(q as int == q2);
            assert(q2 <= -a) by {
                assert(-a <= -a * b) by (nonlinear_arith)
                    requires
                        0 <= -a,
                        1 <= b,
                ;
                lemma_div_is_ordered(-a, -a * b, b);
                lemma_fundamental_div_mod_converse(-a * b, b, -a, 0);
            }
            assert(r64 as int == ceil_div(a, b));
        }
        r64 as i32
    }
}

/// Appends a tenths value with one fractional digit.
fn push_tenths(out: &mut Vec<u8>, v: i32)
    ensures
        final(out)@ == old(out)@ + spec_tenths(v as int),
{
    let neg: bool = v < 0;
    if neg {
        out.push(45u8);
    }
    let m: u64 = if neg {
        (-(v as i64)) as u64
    } else {
        v as u64
    };
    push_digits(out, m / 10);
    out.push(46u8);
    push_digits(out, m % 10);
    proof {
        let mi = if (v as int) < 0 {
            -(v as int)
        } else {
            v as int
        };
        assert(m as int == mi);
        assert((m / 10) as nat == (mi / 10) as nat);
        assert((m % 10) as nat == (mi % 10) as nat);
        assert(final(out)@ =~= old(out)@ + spec_tenths(v as int));
    }
}

/// Appends one rendered entry, `key=min/mean/max`.
fn push_entry(out: &mut Vec<u8>, e: &City)
    requires
        1 <= e.count,
    ensures
        final(out)@ == old(out)@ + spec_entry(e.name@, e.stats()),
{
    out.extend_from_slice(e.name.as_slice());
    out.push(61u8);
    push_tenths(out, e.min);
    out.push(47u8);
    let mean: i32 = div_ceil_tenths(e.sum, e.count);
    push_tenths(out, mean);
    out.push(47u8);
    push_tenths(out, e.max);
    proof {
        assert(mean as int == mean_tenths(e.stats()));
        assert(final(out)@ =~= old(out)@ + spec_entry(e.name@, e.stats()));
    }
}

/// Byte-wise lexicographic order on keys.
pub open spec fn lex_le(a: Seq<u8>, b: Seq<u8>) -> bool
    decreases a.len(),
{
    if a.len() == 0 {
        true
    } else if b.len() == 0 {
        false
    } else if a[0] < b[0] {
        true
    } else if a[0] > b[0] {
        false
    } else {
        lex_le(a.drop_first(), b.drop_first())
    }
}

pub proof fn lemma_lex_refl(a: Seq<u8>)
    ensures
        lex_le(a, a),
    decreases a.len(),
{
    if a.len() > 0 {
        lemma_lex_refl(a.drop_first());
    }
}

pub proof fn lemma_lex_total(a: Seq<u8>, b: Seq<u8>)
    ensures
        lex_le(a, b) || lex_le(b, a),
    decreases a.len(),
{
    if a.len() > 0 && b.len() > 0 && a[0] == b[0] {
        lemma_lex_total(a.drop_first(), b.drop_first());
    }
}

pub proof fn lemma_lex_trans(a: Seq<u8>, b: Seq<u8>, c: Seq<u8>)
    requires
        lex_le(a, b),
        lex_le(b, c),
    ensures
        lex_le(a, c),
    decreases a.len(),
{
    if a.len() > 0 && b.len() > 0 && c.len() > 0 && a[0] == b[0] && b[0] == c[0] {
        lemma_lex_trans(a.drop_first(), b.drop_first(), c.drop_first());
    }
}

/// Byte-wise lexicographic comparison of two keys.
fn lex_le_bytes(a: &[u8], b: &[u8]) -> (r: bool)
    ensures
        r == lex_le(a@, b@),
{
    let an: usize = a.len();
    let bn: usize = b.len();
    let mut i: usize = 0;
    proof {
        assert(a@.skip(0) =~= a@);
        assert(b@.skip(0) =~= b@);
    }
    while i < an && i < bn
        invariant
            an == a@.len(),
            bn == b@.len(),
            i <= an,
            i <= bn,
            lex_le(a@, b@) == lex_le(a@.skip(i as int), b@.skip(i as int)),
        decreases an - i,
    {
        proof {
            assert(a@.skip(i as int)[0] == a@[i as int]);
            assert(b@.skip(i as int)[0] == b@[i as int]);
        }
        if a[i] < b[i] {
            return true;
        }
        if a[i] > b[i] {
            return false;
        }
        proof {
            assert(a@.skip(i as int).drop_first() =~= a@.skip(i + 1));
            assert(b@.skip(i as int).drop_first() =~= b@.skip(i + 1));
        }
        i = i + 1;
    }
    if i == an {
        proof {
            assert(a@.skip(i as int).len() == 0);
        }
        true
    } else {
        proof {
            assert(b@.skip(i as int).len() == 0);
            assert(a@.skip(i as int).len() > 0);
        }
        false
    }
}

/// Entries in ascending key order.
pub open spec fn entries_sorted(es: Seq<City>) -> bool {
    forall|p: int, q: int| #![trigger es[p], es[q]]
        0 <= p <= q < es.len() ==> lex_le(es[p].name@, es[q].name@)
}

/// Sorts the entries by key, byte-wise: a permutation of the input in
/// ascending key order.
fn sort_entries(entries: Vec<City>) -> (r: Vec<City>)
    ensures
        r@.to_multiset() == entries@.to_multiset(),
        entries_sorted(r@),
{
    let mut src = entries;
    let mut out: Vec<City> = Vec::new();
    let ghost all = src@;
    proof {
        broadcast use vstd::multiset::group_multiset_axioms;

        out@.to_multiset_ensures();
        assert(out@.to_multiset().add(src@.to_multiset()) =~= src@.to_multiset());
    }
    while src.len() > 0
        invariant
            out@.to_multiset().add(src@.to_multiset()) == all.to_multiset(),
            entries_sorted(out@),
            forall|p: int, q: int| #![trigger out@[p], src@[q]]
                0 <= p < out@.len() && 0 <= q < src@.len() ==> lex_le(
                    out@[p].name@,
                    src@[q].name@,
                ),
        decreases src@.len(),
    {
        let mut min_i: usize = 0;
        let mut j: usize = 1;
        proof {
            lemma_lex_refl(src@[0].name@);
        }
        while j < src.len()
            invariant
                (min_i as int) < (j as int),
                j <= src@.len(),
                src@.len() > 0,
                forall|k: int|
                    0 <= k < j ==> lex_le(src@[min_i as int].name@, (#[trigger] src@[k]).name@),
            decreases src@.len() - j,
        {
            if lex_le_bytes(src[j].name.as_slice(), src[min_i].name.as_slice()) {
                proof {
                    assert forall|k: int| 0 <= k < j implies lex_le(
                        src@[j as int].name@,
                        (#[trigger] src@[k]).name@,
                    ) by {
                        lemma_lex_trans(src@[j as int].name@, src@[min_i as int].name@, src@[k].name@);
                    }
                    lemma_lex_refl(src@[j as int].name@);
                }
                min_i = j;
            } else {
                proof {
                    lemma_lex_total(src@[j as int].name@, src@[min_i as int].name@);
                }
            }
            j = j + 1;
        }
        let ghost src0 = src@;
        let ghost out0 = out@;
        let e = src.remove(min_i);
        out.push(e);
        proof {
            broadcast use vstd::multiset::group_multiset_axioms;

            src0.to_multiset_ensures();
            out0.to_multiset_ensures();
            assert(src0.contains(e)) by {
                assert(src0[min_i as int] == e);
            }
            assert(src0.to_multiset().count(e) > 0);
            assert(out@.to_multiset() =~= out0.to_multiset().insert(e));
            assert(src@.to_multiset() =~= src0.to_multiset().remove(e));
            assert(out@.to_multiset().add(src@.to_multiset()) =~= out0.to_multiset().add(
                src0.to_multiset(),
            ));
            // index mapping for the removed position
            assert forall|q: int| 0 <= q < src@.len() implies src@[q] == src0[q] || src@[q]
                == src0[q + 1] by {
                if q < min_i as int {
                    assert(src@[q] == src0[q]);
                } else {
                    assert(src@[q] == src0[q + 1]);
                }
            }
            assert forall|p: int, q: int| #![trigger out@[p], src@[q]]
                0 <= p < out@.len() && 0 <= q < src@.len() implies lex_le(
                out@[p].name@,
                src@[q].name@,
            ) by {
                let ghost sq = if q < min_i as int {
                    q
                } else {
                    q + 1
                };
                assert(src@[q] == src0[sq]);
                assert(lex_le(e.name@, src0[sq].name@));
                if p < out@.len() - 1 {
                    assert(out@[p] == out0[p]);
                    assert(lex_le(out0[p].name@, src0[sq].name@));
                } else {
                    assert(out@[p] == e);
                }
            }
            assert forall|p: int, q: int| #![trigger out@[p], out@[q]]
                0 <= p <= q < out@.len() implies lex_le(out@[p].name@, out@[q].name@) by {
                if q < out@.len() - 1 {
                    assert(out@[p] == out0[p]);
                    assert(out@[q] == out0[q]);
                } else if p < out@.len() - 1 {
                    assert(out@[p] == out0[p]);
                    assert(out@[q] == e);
                    assert(lex_le(out0[p].name@, src0[min_i as int].name@));
                } else {
                    assert(out@[p] == e);
                    lemma_lex_refl(e.name@);
                }
            }
        }
    }
    proof {
        broadcast use vstd::multiset::group_multiset_axioms;

        src@.to_multiset_ensures();
        assert(out@.to_multiset() =~= out@.to_multiset().add(src@.to_multiset()));
        assert(out@.to_multiset() =~= all.to_multiset());
    }
    out
}

/// A permutation of entries with unique keys still has unique keys.
proof fn lemma_unique_names_permuted(a: Seq<City>, b: Seq<City>)
    requires
        unique_names(a),
        a.to_multiset() == b.to_multiset(),
    ensures
        unique_names(b),
{
    a.to_multiset_ensures();
    b.to_multiset_ensures();
    assert(a.no_duplicates()) by {
        assert forall|i: int, j: int|
            0 <= i < a.len() && 0 <= j < a.len() && i != j implies a[i] != a[j] by {
            if i < j {
                assert(a[i].name@ != a[j].name@);
            } else {
                assert(a[j].name@ != a[i].name@);
            }
        }
    }
    a.lemma_multiset_has_no_duplicates();
    b.lemma_multiset_has_no_duplicates_conv();
    assert forall|p: int, q: int| 0 <= p < q < b.len() implies b[p].name@ != b[q].name@ by {
        if b[p].name@ == b[q].name@ {
            assert(b[p] != b[q]);
            assert(b.contains(b[p]));
            assert(b.contains(b[q]));
            assert(b.to_multiset().count(b[p]) > 0);
            assert(b.to_multiset().count(b[q]) > 0);
            assert(a.to_multiset().count(b[p]) > 0);
            assert(a.to_multiset().count(b[q]) > 0);
            assert(a.contains(b[p]));
            assert(a.contains(b[q]));
            let i = choose|i: int| 0 <= i < a.len() && a[i] == b[p];
            let j = choose|j: int| 0 <= j < a.len() && a[j] == b[q];
            assert(a[i].name@ == a[j].name@);
            assert(i != j);
            if i < j {
                assert(a[i].name@ != a[j].name@);
            } else {
                assert(a[j].name@ != a[i].name@);
            }
        }
    }
}

/// The mapping a table stands for does not depend on the order of its
/// entries.
proof fn lemma_table_permutation(a: Seq<City>, b: Seq<City>)
    requires
        unique_names(a),
        unique_names(b),
        a.to_multiset() == b.to_multiset(),
    ensures
        table_of_entries(a) == table_of_entries(b),
{
    a.to_multiset_ensures();
    b.to_multiset_ensures();
    assert forall|k: Seq<u8>| #[trigger] table_of_entries(a).dom().contains(k)
        implies table_of_entries(b).dom().contains(k) && table_of_entries(b)[k]
        == table_of_entries(a)[k] by {
        lemma_table_of_entries_dom(a, k);
        let i = choose|i: int| 0 <= i < a.len() && #[trigger] a[i].name@ == k;
        lemma_table_of_entries_index(a, i);
        assert(a.contains(a[i]));
        assert(a.to_multiset().count(a[i]) > 0);
        assert(b.to_multiset().count(a[i]) > 0);
        assert(b.contains(a[i]));
        let j = choose|j: int| 0 <= j < b.len() && b[j] == a[i];
        lemma_table_of_entries_index(b, j);
    }
    assert forall|k: Seq<u8>| #[trigger] table_of_entries(b).dom().contains(k)
        implies table_of_entries(a).dom().contains(k) by {
        lemma_table_of_entries_dom(b, k);
        let j = choose|j: int| 0 <= j < b.len() && #[trigger] b[j].name@ == k;
        lemma_table_of_entries_index(b, j);
        assert(b.contains(b[j]));
        assert(b.to_multiset().count(b[j]) > 0);
        assert(a.to_multiset().count(b[j]) > 0);
        assert(a.contains(b[j]));
        let i = choose|i: int| 0 <= i < a.len() && a[i] == b[j];
        lemma_table_of_entries_index(a, i);
    }
    assert(table_of_entries(a) =~= table_of_entries(b));
}

/// The mapping a sequence of rendered pairs stands for.
pub open spec fn table_of_pairs(es: Seq<(Seq<u8>, Stats)>) -> Map<Seq<u8>, Stats>
    decreases es.len(),
{
    if es.len() == 0 {
        Map::empty()
    } else {
        table_of_pairs(es.drop_last()).insert(es.last().0, es.last().1)
    }
}

/// The pair an entry renders as.
pub open spec fn city_pair(c: City) -> (Seq<u8>, Stats) {
    (c.name@, c.stats())
}

proof fn lemma_table_of_pairs_entries(es: Seq<City>)
    ensures
        table_of_pairs(es.map_values(|c: City| city_pair(c))) == table_of_entries(es),
    decreases es.len(),
{
    let ps = es.map_values(|c: City| city_pair(c));
    if es.len() > 0 {
        assert(ps.drop_last() =~= es.drop_last().map_values(|c: City| city_pair(c)));
        lemma_table_of_pairs_entries(es.drop_last());
        assert(ps.last() == city_pair(es.last()));
    }
}

/// Pairs in strictly ascending key order.
pub open spec fn sorted_distinct_keys(es: Seq<(Seq<u8>, Stats)>) -> bool {
    forall|p: int, q: int| #![trigger es[p], es[q]]
        0 <= p < q < es.len() ==> lex_le(es[p].0, es[q].0) && es[p].0 != es[q].0
}

/// Renders the table: entries sorted by key, each as `key=min/mean/max`
/// with one fractional digit, joined by `, ` and wrapped in braces. The
/// output is pinned to the rendering of the one strictly key-ascending
/// ordering of the table's entries.
pub fn format_output(table: StatsTable) -> (out: Vec<u8>)
    requires
        table.wf(),
    ensures
        exists|es: Seq<(Seq<u8>, Stats)>|
            sorted_distinct_keys(es) && #[trigger] table_of_pairs(es) == table@ && out@
                == spec_output(es),
{
    let ghost orig = table.entries@;
    let sorted = sort_entries(table.entries);
    let ghost es = sorted@.map_values(|c: City| city_pair(c));
    proof {
        lemma_unique_names_permuted(orig, sorted@);
        lemma_table_permutation(orig, sorted@);
        lemma_table_of_pairs_entries(sorted@);
        orig.to_multiset_ensures();
        sorted@.to_multiset_ensures();
        assert forall|i: int| 0 <= i < sorted@.len() implies 1 <= (#[trigger] sorted@[i]).count by {
            assert(sorted@.contains(sorted@[i]));
            assert(sorted@.to_multiset().count(sorted@[i]) > 0);
            assert(orig.to_multiset().count(sorted@[i]) > 0);
            assert(orig.contains(sorted@[i]));
            let oi = choose|oi: int| 0 <= oi < orig.len() && orig[oi] == sorted@[i];
            assert(valid_stats(orig[oi].stats()));
        }
        assert(sorted_distinct_keys(es)) by {
            assert forall|p: int, q: int| #![trigger es[p], es[q]]
                0 <= p < q < es.len() implies lex_le(es[p].0, es[q].0) && es[p].0 != es[q].0 by {
                assert(es[p] == city_pair(sorted@[p]));
                assert(es[q] == city_pair(sorted@[q]));
            }
        }
    }
    let mut out: Vec<u8> = Vec::new();
    out.push(123u8);
    let n: usize = sorted.len();
    let mut i: usize = 0;
    while i < n
        invariant
            n == sorted@.len(),
            i <= n,
            es == sorted@.map_values(|c: City| city_pair(c)),
            forall|j: int| 0 <= j < sorted@.len() ==> 1 <= (#[trigger] sorted@[j]).count,
            out@ == seq![123u8] + spec_entries(es.take(i as int)),
        decreases n - i,
    {
        if i > 0 {
            out.push(44u8);
            out.push(32u8);
        }
        push_entry(&mut out, &sorted[i]);
        proof {
            assert(es.take(i + 1).drop_last() =~= es.take(i as int));
            assert(es.take(i + 1).last() == es[i as int]);
            assert(es[i as int] == city_pair(sorted@[i as int]));
            assert(out@ =~= seq![123u8] + spec_entries(es.take(i + 1)));
        }
        i = i + 1;
    }
    out.push(125u8);
    proof {
        assert(es.take(n as int) =~= es);
        assert(out@ =~= spec_output(es));
        assert(table_of_pairs(es) == table@);
    }
    out
}

} // verus!
