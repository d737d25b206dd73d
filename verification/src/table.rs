//! Statistics tables: a mapping from key to running `{max, min, sum, count}`
//! over the values observed for that key, together with the mathematical
//! model the contracts speak of and the merge rule that combines tables.

use vstd::prelude::*;

verus! {

/// Mathematical running statistics for one key.
pub ghost struct Stats {
    pub max: int,
    pub min: int,
    pub sum: int,
    pub count: int,
}

/// Statistics of a single observed value.
pub open spec fn stats_one(v: int) -> Stats {
    Stats { max: v, min: v, sum: v, count: 1 }
}

/// Combination rule for two batches of observations of the same key.
pub open spec fn stats_join(a: Stats, b: Stats) -> Stats {
    Stats {
        max: if a.max >= b.max {
            a.max
        } else {
            b.max
        },
        min: if a.min <= b.min {
            a.min
        } else {
            b.min
        },
        sum: a.sum + b.sum,
        count: a.count + b.count,
    }
}

/// Invariant of any statistics entry that summarizes at least one value:
/// the sum of `count` values, each between `min` and `max`.
pub open spec fn valid_stats(s: Stats) -> bool {
    &&& 1 <= s.count
    &&& s.min <= s.max
    &&& s.count * s.min <= s.sum
    &&& s.sum <= s.count * s.max
}

/// Largest magnitude a single observed value of this entry may have had.
pub open spec fn stats_mag(s: Stats) -> int {
    if s.max >= -s.min {
        s.max
    } else {
        -s.min
    }
}

/// Entries with this much headroom can be accumulated in `i32` fields
/// without overflow at any intermediate step.
pub open spec fn stats_headroom(s: Stats) -> bool {
    s.count <= i32::MAX && s.count * stats_mag(s) <= i32::MAX
}

/// Folding one observation into a table.
pub open spec fn table_add(m: Map<Seq<u8>, Stats>, k: Seq<u8>, v: int) -> Map<Seq<u8>, Stats> {
    if m.dom().contains(k) {
        m.insert(k, stats_join(m[k], stats_one(v)))
    } else {
        m.insert(k, stats_one(v))
    }
}

/// Merging two tables: keys of either side, entries of shared keys joined.
pub open spec fn table_merge(a: Map<Seq<u8>, Stats>, b: Map<Seq<u8>, Stats>) -> Map<
    Seq<u8>,
    Stats,
> {
    Map::new(
        |k: Seq<u8>| a.dom().contains(k) || b.dom().contains(k),
        |k: Seq<u8>|
            if a.dom().contains(k) && b.dom().contains(k) {
                stats_join(a[k], b[k])
            } else if a.dom().contains(k) {
                a[k]
            } else {
                b[k]
            },
    )
}

/// Every entry of the table has `i32` headroom.
pub open spec fn table_ok(m: Map<Seq<u8>, Stats>) -> bool {
    forall|k: Seq<u8>| #[trigger] m.dom().contains(k) ==> stats_headroom(m[k])
}

/// Every entry of the table satisfies the entry invariant.
pub open spec fn table_valid(m: Map<Seq<u8>, Stats>) -> bool {
    forall|k: Seq<u8>| #[trigger] m.dom().contains(k) ==> valid_stats(m[k])
}

/// Law: the combination rule for two batches of observations is
/// commutative.
pub proof fn lemma_stats_join_commutative(a: Stats, b: Stats)
    ensures
        stats_join(a, b) == stats_join(b, a),
{
}

/// Law: the combination rule for batches of observations is associative.
pub proof fn lemma_stats_join_associative(a: Stats, b: Stats, c: Stats)
    ensures
        stats_join(stats_join(a, b), c) == stats_join(a, stats_join(b, c)),
{
}

pub proof fn lemma_valid_stats_join(a: Stats, b: Stats)
    requires
        valid_stats(a),
        valid_stats(b),
    ensures
        valid_stats(stats_join(a, b)),
{
    let j = stats_join(a, b);
    let ac = a.count;
    let bc = b.count;
    let jmin = j.min;
    let jmax = j.max;
    assert((ac + bc) * jmin <= a.sum + b.sum) by (nonlinear_arith)
        requires
            1 <= ac,
            1 <= bc,
            ac * a.min <= a.sum,
            bc * b.min <= b.sum,
            jmin <= a.min,
            jmin <= b.min,
    ;
    assert(a.sum + b.sum <= (ac + bc) * jmax) by (nonlinear_arith)
        requires
            1 <= ac,
            1 <= bc,
            a.sum <= ac * a.max,
            b.sum <= bc * b.max,
            a.max <= jmax,
            b.max <= jmax,
    ;
}

/// Law: merging two local tables is commutative; workers may hand their
/// tables in, in any order, with an identical result.
pub proof fn lemma_table_merge_commutative(a: Map<Seq<u8>, Stats>, b: Map<Seq<u8>, Stats>)
    ensures
        table_merge(a, b) == table_merge(b, a),
{
    assert(table_merge(a, b) =~= table_merge(b, a));
}

/// Law: merging tables is associative; local tables may be folded together
/// in any grouping with an identical result.
pub proof fn lemma_table_merge_associative(
    a: Map<Seq<u8>, Stats>,
    b: Map<Seq<u8>, Stats>,
    c: Map<Seq<u8>, Stats>,
)
    ensures
        table_merge(table_merge(a, b), c) == table_merge(a, table_merge(b, c)),
{
    assert(table_merge(table_merge(a, b), c) =~= table_merge(a, table_merge(b, c)));
}

/// Merging with the empty table changes nothing.
pub proof fn lemma_table_merge_empty(a: Map<Seq<u8>, Stats>)
    ensures
        table_merge(a, Map::<Seq<u8>, Stats>::empty()) == a,
        table_merge(Map::<Seq<u8>, Stats>::empty(), a) == a,
{
    assert(table_merge(a, Map::<Seq<u8>, Stats>::empty()) =~= a);
    assert(table_merge(Map::<Seq<u8>, Stats>::empty(), a) =~= a);
}

/// `big` summarizes at least the observations `small` does: more of them,
/// over a wider value range.
pub open spec fn stats_dominates(big: Stats, small: Stats) -> bool {
    &&& 0 <= small.count <= big.count
    &&& big.min <= small.min
    &&& small.max <= big.max
}

/// A dominated entry inherits the headroom of the dominating one.
pub proof fn lemma_headroom_dominated(big: Stats, small: Stats)
    requires
        stats_headroom(big),
        stats_dominates(big, small),
        small.min <= small.max,
    ensures
        stats_headroom(small),
{
    assert(0 <= stats_mag(small) <= stats_mag(big));
    assert(small.count * stats_mag(small) <= big.count * stats_mag(big)) by (nonlinear_arith)
        requires
            0 <= small.count <= big.count,
            0 <= stats_mag(small) <= stats_mag(big),
    ;
}

/// One statistics entry: the key, stored once, with its running statistics
/// held as fixed-point tenths.
pub struct City {
    pub name: Vec<u8>,
    pub max: i32,
    pub min: i32,
    pub sum: i32,
    pub count: i32,
}

impl City {
    /// The mathematical statistics this entry holds.
    pub open spec fn stats(&self) -> Stats {
        Stats { max: self.max as int, min: self.min as int, sum: self.sum as int, count: self.count as int }
    }

    /// Entry for a key seen for the first time: one observation, which is
    /// at once the maximum, the minimum and the whole sum.
    pub fn new(name: Vec<u8>, max: i32, min: i32) -> (c: City)
        ensures
            c.name == name,
            c.max == max,
            c.min == min,
            c.sum == max,
            c.count == 1,
    {
        City { name, max, min, sum: max, count: 1 }
    }
}

/// The mapping a sequence of entries stands for.
pub open spec fn table_of_entries(es: Seq<City>) -> Map<Seq<u8>, Stats>
    decreases es.len(),
{
    if es.len() == 0 {
        Map::empty()
    } else {
        table_of_entries(es.drop_last()).insert(es.last().name@, es.last().stats())
    }
}

/// No two entries share a key.
pub open spec fn unique_names(es: Seq<City>) -> bool {
    forall|i: int, j: int| 0 <= i < j < es.len() ==> es[i].name@ != es[j].name@
}

/// With unique keys, each entry is found in the mapping unchanged.
pub proof fn lemma_table_of_entries_index(es: Seq<City>, i: int)
    requires
        unique_names(es),
        0 <= i < es.len(),
    ensures
        table_of_entries(es).dom().contains(es[i].name@),
        table_of_entries(es)[es[i].name@] == es[i].stats(),
    decreases es.len(),
{
    if i < es.len() - 1 {
        assert(unique_names(es.drop_last())) by {
            assert forall|p: int, q: int|
                0 <= p < q < es.drop_last().len() implies es.drop_last()[p].name@
                != es.drop_last()[q].name@ by {
                assert(es.drop_last()[p] == es[p]);
                assert(es.drop_last()[q] == es[q]);
            }
        }
        assert(es.drop_last()[i] == es[i]);
        lemma_table_of_entries_index(es.drop_last(), i);
        assert(es[i].name@ != es.last().name@);
    }
}

/// A key no entry holds is not in the mapping.
pub proof fn lemma_table_of_entries_absent(es: Seq<City>, k: Seq<u8>)
    requires
        forall|i: int| 0 <= i < es.len() ==> #[trigger] es[i].name@ != k,
    ensures
        !table_of_entries(es).dom().contains(k),
    decreases es.len(),
{
    if es.len() > 0 {
        assert forall|i: int| 0 <= i < es.drop_last().len() implies #[trigger] es.drop_last()[i].name@
            != k by {
            assert(es.drop_last()[i] == es[i]);
        }
        lemma_table_of_entries_absent(es.drop_last(), k);
        assert(es.last() == es[es.len() - 1]);
    }
}

/// Every key of the mapping is the key of some entry.
pub proof fn lemma_table_of_entries_dom(es: Seq<City>, k: Seq<u8>)
    requires
        table_of_entries(es).dom().contains(k),
    ensures
        exists|i: int| 0 <= i < es.len() && #[trigger] es[i].name@ == k,
    decreases es.len(),
{
    if es.len() > 0 {
        if es.last().name@ == k {
            assert(es[es.len() - 1].name@ == k);
        } else {
            lemma_table_of_entries_dom(es.drop_last(), k);
            let i = choose|i: int|
                0 <= i < es.drop_last().len() && #[trigger] es.drop_last()[i].name@ == k;
            assert(es[i].name@ == k);
        }
    }
}

/// A worker-local or global statistics table, keyed uniquely.
pub struct StatsTable {
    pub entries: Vec<City>,
}

impl View for StatsTable {
    type V = Map<Seq<u8>, Stats>;

    open spec fn view(&self) -> Map<Seq<u8>, Stats> {
        table_of_entries(self.entries@)
    }
}

impl StatsTable {
    /// Well-formed: keys unique, every entry a valid summary.
    pub open spec fn wf(&self) -> bool {
        &&& unique_names(self.entries@)
        &&& forall|i: int|
            0 <= i < self.entries@.len() ==> valid_stats(#[trigger] self.entries@[i].stats())
    }

    pub fn new() -> (t: StatsTable)
        ensures
            t.wf(),
            t@ == Map::<Seq<u8>, Stats>::empty(),
    {
        StatsTable { entries: Vec::new() }
    }

    /// Index of the entry holding `key`, if any.
    pub fn find_entry(&self, key: &[u8]) -> (r: Option<usize>)
        ensures
            match r {
                Some(i) => i < self.entries@.len() && self.entries@[i as int].name@ == key@,
                None => forall|i: int|
                    0 <= i < self.entries@.len() ==> #[trigger] self.entries@[i].name@ != key@,
            },
    {
        let n: usize = self.entries.len();
        let mut i: usize = 0;
        while i < n
            invariant
                n == self.entries@.len(),
                i <= n,
                forall|j: int| 0 <= j < i ==> #[trigger] self.entries@[j].name@ != key@,
            decreases n - i,
        {
            if bytes_eq(self.entries[i].name.as_slice(), key) {
                return Some(i);
            }
            i = i + 1;
        }
        None
    }

    /// Folds one observation into the table: a new key starts a fresh entry,
    /// a known key updates max, min, sum and count.
    pub fn add_observation(&mut self, key: &[u8], value: i32)
        requires
            old(self).wf(),
            stats_headroom(table_add(old(self)@, key@, value as int)[key@]),
        ensures
            final(self).wf(),
            final(self)@ == table_add(old(self)@, key@, value as int),
    {
        let ghost es0 = self.entries@;
        match self.find_entry(key) {
            Some(i) => {
                proof {
                    lemma_table_of_entries_index(es0, i as int);
                    assert(self@.dom().contains(key@));
                    let joined = stats_join(self@[key@], stats_one(value as int));
                    assert(table_add(self@, key@, value as int)[key@] == joined);
                    lemma_valid_stats_join(es0[i as int].stats(), stats_one(value as int));
                    assert(valid_stats(joined));
                    // headroom of the joined entry bounds each new field
                    assert(joined.sum <= joined.count * stats_mag(joined)) by (nonlinear_arith)
                        requires
                            valid_stats(joined),
                    ;
                    assert(-(joined.count * stats_mag(joined)) <= joined.sum) by (nonlinear_arith)
                        requires
                            valid_stats(joined),
                    ;
                }
                let e = &mut self.entries[i];
                if value > e.max {
                    e.max = value;
                }
                if value < e.min {
                    e.min = value;
                }
                e.sum = e.sum + value;
                e.count = e.count + 1;
                proof {
                    let es1 = self.entries@;
                    assert(es1 =~= es0.update(
                        i as int,
                        City {
                            name: es1[i as int].name,
                            max: es1[i as int].max,
                            min: es1[i as int].min,
                            sum: es1[i as int].sum,
                            count: es1[i as int].count,
                        },
                    ));
                    assert(es1[i as int].stats() == stats_join(
                        es0[i as int].stats(),
                        stats_one(value as int),
                    ));
                    lemma_table_update_entry(es0, es1, i as int);
                    assert(self@ =~= table_add(table_of_entries(es0), key@, value as int));
                }
            },
            None => {
                proof {
                    lemma_table_of_entries_absent(es0, key@);
                }
                let mut name: Vec<u8> = Vec::new();
                name.extend_from_slice(key);
                proof {
                    assert(name@ =~= key@);
                }
                let c = City::new(name, value, value);
                self.entries.push(c);
                proof {
                    assert(self.entries@.drop_last() =~= es0);
                    assert(self.entries@.last().name@ == key@);
                    assert(self.entries@.last().stats() == stats_one(value as int));
                    assert(self@ == table_of_entries(es0).insert(key@, stats_one(value as int)));
                    assert forall|p: int, q: int|
                        0 <= p < q < self.entries@.len() implies self.entries@[p].name@
                        != self.entries@[q].name@ by {
                        if q < self.entries@.len() - 1 {
                            assert(self.entries@[p] == es0[p]);
                            assert(self.entries@[q] == es0[q]);
                        } else {
                            assert(self.entries@[p] == es0[p]);
                            assert(self.entries@[q].name@ == key@);
                        }
                    }
                    assert forall|j: int| 0 <= j < self.entries@.len() implies valid_stats(
                        #[trigger] self.entries@[j].stats(),
                    ) by {
                        if j < self.entries@.len() - 1 {
                            assert(self.entries@[j] == es0[j]);
                        }
                    }
                }
            },
        }
    }
}

/// Folding one whole entry (a batch of `count` observations) into a table.
pub open spec fn table_merge_entry(m: Map<Seq<u8>, Stats>, k: Seq<u8>, s: Stats) -> Map<
    Seq<u8>,
    Stats,
> {
    if m.dom().contains(k) {
        m.insert(k, stats_join(m[k], s))
    } else {
        m.insert(k, s)
    }
}

/// Folding entries one at a time agrees with merging whole tables.
proof fn lemma_merge_entry_step(
    a: Map<Seq<u8>, Stats>,
    m: Map<Seq<u8>, Stats>,
    k: Seq<u8>,
    s: Stats,
)
    requires
        !m.dom().contains(k),
    ensures
        table_merge(table_merge_entry(a, k, s), m) == table_merge(a, m.insert(k, s)),
{
    assert(table_merge(table_merge_entry(a, k, s), m) =~= table_merge(a, m.insert(k, s)));
}

impl StatsTable {
    /// Folds one entry of another table into this one: a new key inserts the
    /// entry as it is, a shared key joins the two summaries.
    pub fn merge_entry(&mut self, e: City)
        requires
            old(self).wf(),
            valid_stats(e.stats()),
            stats_headroom(table_merge_entry(old(self)@, e.name@, e.stats())[e.name@]),
        ensures
            final(self).wf(),
            final(self)@ == table_merge_entry(old(self)@, e.name@, e.stats()),
    {
        let ghost es0 = self.entries@;
        match self.find_entry(e.name.as_slice()) {
            Some(i) => {
                proof {
                    lemma_table_of_entries_index(es0, i as int);
                    let joined = stats_join(es0[i as int].stats(), e.stats());
                    assert(table_merge_entry(self@, e.name@, e.stats())[e.name@] == joined);
                    lemma_valid_stats_join(es0[i as int].stats(), e.stats());
                    assert(joined.sum <= joined.count * stats_mag(joined)) by (nonlinear_arith)
                        requires
                            valid_stats(joined),
                    ;
                    assert(-(joined.count * stats_mag(joined)) <= joined.sum) by (nonlinear_arith)
                        requires
                            valid_stats(joined),
                    ;
                }
                let c = &mut self.entries[i];
                if e.max > c.max {
                    c.max = e.max;
                }
                if e.min < c.min {
                    c.min = e.min;
                }
                c.sum = c.sum + e.sum;
                c.count = c.count + e.count;
                proof {
                    let es1 = self.entries@;
                    assert(es1 =~= es0.update(
                        i as int,
                        City {
                            name: es1[i as int].name,
                            max: es1[i as int].max,
                            min: es1[i as int].min,
                            sum: es1[i as int].sum,
                            count: es1[i as int].count,
                        },
                    ));
                    assert(es1[i as int].stats() == stats_join(es0[i as int].stats(), e.stats()));
                    lemma_table_update_entry(es0, es1, i as int);
                    assert(self@ =~= table_merge_entry(
                        table_of_entries(es0),
                        e.name@,
                        e.stats(),
                    ));
                }
            },
            None => {
                proof {
                    lemma_table_of_entries_absent(es0, e.name@);
                }
                let ghost ge = e;
                self.entries.push(e);
                proof {
                    assert(self.entries@.drop_last() =~= es0);
                    assert(self.entries@.last() == ge);
                    assert(self@ == table_of_entries(es0).insert(ge.name@, ge.stats()));
                    assert forall|p: int, q: int|
                        0 <= p < q < self.entries@.len() implies self.entries@[p].name@
                        != self.entries@[q].name@ by {
                        if q < self.entries@.len() - 1 {
                            assert(self.entries@[p] == es0[p]);
                            assert(self.entries@[q] == es0[q]);
                        } else {
                            assert(self.entries@[p] == es0[p]);
                            assert(self.entries@[q].name@ == ge.name@);
                        }
                    }
                    assert forall|j: int| 0 <= j < self.entries@.len() implies valid_stats(
                        #[trigger] self.entries@[j].stats(),
                    ) by {
                        if j < self.entries@.len() - 1 {
                            assert(self.entries@[j] == es0[j]);
                        }
                    }
                }
            },
        }
    }

    /// Merges a whole worker-local table into this one, consuming it. The
    /// order in which entries are folded does not matter: the result is the
    /// key-wise merge of the two tables.
    pub fn merge_from(&mut self, other: StatsTable)
        requires
            old(self).wf(),
            other.wf(),
            table_ok(table_merge(old(self)@, other@)),
        ensures
            final(self).wf(),
            final(self)@ == table_merge(old(self)@, other@),
    {
        let ghost m0 = self@;
        let ghost oth0 = other@;
        let mut rem = other;
        while rem.entries.len() > 0
            invariant
                self.wf(),
                rem.wf(),
                table_merge(self@, rem@) == table_merge(m0, oth0),
                table_ok(table_merge(m0, oth0)),
            decreases rem.entries@.len(),
        {
            let ghost rs0 = rem.entries@;
            let e = rem.entries.pop().unwrap();
            proof {
                assert(rem.entries@ =~= rs0.drop_last());
                assert(e == rs0.last());
                assert(e == rs0[rs0.len() - 1]);
                lemma_table_of_entries_index(rs0, rs0.len() - 1);
                assert(valid_stats(e.stats()));
                assert forall|i: int|
                    0 <= i < rem.entries@.len() implies #[trigger] rem.entries@[i].name@
                    != e.name@ by {
                    assert(rem.entries@[i] == rs0[i]);
                }
                lemma_table_of_entries_absent(rem.entries@, e.name@);
                assert(table_of_entries(rs0) == rem@.insert(e.name@, e.stats()));
                lemma_merge_entry_step(self@, rem@, e.name@, e.stats());
                // headroom of the merged entry, read off the final merged table
                assert(table_merge(self@, table_of_entries(rs0)).dom().contains(e.name@));
                assert(table_merge(self@, table_of_entries(rs0))[e.name@] == table_merge_entry(
                    self@,
                    e.name@,
                    e.stats(),
                )[e.name@]);
                assert(stats_headroom(table_merge_entry(self@, e.name@, e.stats())[e.name@]));
                assert(unique_names(rem.entries@)) by {
                    assert forall|p: int, q: int|
                        0 <= p < q < rem.entries@.len() implies rem.entries@[p].name@
                        != rem.entries@[q].name@ by {
                        assert(rem.entries@[p] == rs0[p]);
                        assert(rem.entries@[q] == rs0[q]);
                    }
                }
                assert forall|j: int| 0 <= j < rem.entries@.len() implies valid_stats(
                    #[trigger] rem.entries@[j].stats(),
                ) by {
                    assert(rem.entries@[j] == rs0[j]);
                }
            }
            self.merge_entry(e);
        }
        proof {
            assert(rem@ =~= Map::<Seq<u8>, Stats>::empty());
            lemma_table_merge_empty(self@);
        }
    }
}

/// Updating one entry in place, keeping its name, updates the mapping at
/// that one key.
proof fn lemma_table_update_entry(es0: Seq<City>, es1: Seq<City>, i: int)
    requires
        unique_names(es0),
        0 <= i < es0.len(),
        es1.len() == es0.len(),
        forall|j: int| 0 <= j < es0.len() && j != i ==> es1[j] == es0[j],
        es1[i].name@ == es0[i].name@,
    ensures
        unique_names(es1),
        table_of_entries(es1) == table_of_entries(es0).insert(es1[i].name@, es1[i].stats()),
    decreases es0.len(),
{
    assert forall|p: int, q: int| 0 <= p < q < es1.len() implies es1[p].name@ != es1[q].name@ by {
        assert(es1[p].name@ == es0[p].name@);
        assert(es1[q].name@ == es0[q].name@);
    }
    if i == es0.len() - 1 {
        assert(es1.drop_last() =~= es0.drop_last());
        assert(table_of_entries(es1) == table_of_entries(es0.drop_last()).insert(
            es1[i].name@,
            es1[i].stats(),
        ));
        assert(table_of_entries(es0).insert(es1[i].name@, es1[i].stats()) =~= table_of_entries(
            es0.drop_last(),
        ).insert(es1[i].name@, es1[i].stats()));
    } else {
        assert(unique_names(es0.drop_last())) by {
            assert forall|p: int, q: int|
                0 <= p < q < es0.drop_last().len() implies es0.drop_last()[p].name@
                != es0.drop_last()[q].name@ by {
                assert(es0.drop_last()[p] == es0[p]);
                assert(es0.drop_last()[q] == es0[q]);
            }
        }
        assert forall|j: int|
            0 <= j < es0.drop_last().len() && j != i implies es1.drop_last()[j] == es0.drop_last()[j]
            by {
            assert(es1.drop_last()[j] == es1[j]);
            assert(es0.drop_last()[j] == es0[j]);
        }
        assert(es1.drop_last()[i] == es1[i]);
        assert(es0.drop_last()[i] == es0[i]);
        lemma_table_update_entry(es0.drop_last(), es1.drop_last(), i);
        assert(es1.last() == es0.last());
        assert(es1[i].name@ != es0.last().name@);
        assert(table_of_entries(es1) =~= table_of_entries(es0).insert(
            es1[i].name@,
            es1[i].stats(),
        ));
    }
}

/// Byte-for-byte equality of two slices.
pub fn bytes_eq(a: &[u8], b: &[u8]) -> (r: bool)
    ensures
        r == (a@ == b@),
{
    if a.len() != b.len() {
        proof {
            assert(a@ != b@);
        }
        return false;
    }
    let n: usize = a.len();
    let mut i: usize = 0;
    while i < n
        invariant
            n == a@.len(),
            n == b@.len(),
            i <= n,
            forall|j: int| 0 <= j < i ==> a@[j] == b@[j],
        decreases n - i,
    {
        if a[i] != b[i] {
            proof {
                assert(a@[i as int] != b@[i as int]);
            }
            return false;
        }
        i = i + 1;
    }
    proof {
        assert(a@ =~= b@);
    }
    true
}

} // verus!
