//! Counters that replicas merge: a grow-only counter keeps one count per
//! node, and a counter that also goes down keeps two of them.

use vstd::prelude::*;
use crate::text::same_text;

verus! {

/// The count of each node, from a list of node and count pairs; a later
/// pair for the same node overrides an earlier one.
pub open spec fn counts_of(s: Seq<(String, i32)>) -> Map<Seq<char>, int>
    decreases s.len(),
{
    if s.len() == 0 {
        Map::empty()
    } else {
        counts_of(s.drop_last()).insert(s.last().0@, s.last().1 as int)
    }
}

/// The count of node `k`, zero where it has none.
pub open spec fn count_or_zero(m: Map<Seq<char>, int>, k: Seq<char>) -> int {
    if m.contains_key(k) { m[k] } else { 0 }
}

/// The sum of the counts of a list of pairs.
pub open spec fn total(s: Seq<(String, i32)>) -> int
    decreases s.len(),
{
    if s.len() == 0 {
        0
    } else {
        total(s.drop_last()) + s.last().1
    }
}

pub open spec fn unique_nodes(s: Seq<(String, i32)>) -> bool {
    forall|i: int, j: int| 0 <= i < j < s.len() ==> s[i].0@ != s[j].0@
}

/// Two replicas' counts merged: every node of either, with the larger of
/// its counts.
pub open spec fn merge_counts(a: Map<Seq<char>, int>, b: Map<Seq<char>, int>) -> Map<Seq<char>, int> {
    Map::new(
        |k: Seq<char>| a.contains_key(k) || b.contains_key(k),
        |k: Seq<char>|
            if a.contains_key(k) && b.contains_key(k) {
                if a[k] < b[k] { b[k] } else { a[k] }
            } else if a.contains_key(k) {
                a[k]
            } else {
                b[k]
            },
    )
}

/// Merging is commutative.
pub proof fn lemma_merge_commutative(a: Map<Seq<char>, int>, b: Map<Seq<char>, int>)
    ensures
        merge_counts(a, b) == merge_counts(b, a),
{
    assert(merge_counts(a, b) =~= merge_counts(b, a));
}

/// Merging is associative.
pub proof fn lemma_merge_associative(
    a: Map<Seq<char>, int>,
    b: Map<Seq<char>, int>,
    c: Map<Seq<char>, int>,
)
    ensures
        merge_counts(merge_counts(a, b), c) == merge_counts(a, merge_counts(b, c)),
{
    assert(merge_counts(merge_counts(a, b), c) =~= merge_counts(a, merge_counts(b, c)));
}

/// Merging a counter with itself changes nothing.
pub proof fn lemma_merge_idempotent(a: Map<Seq<char>, int>)
    ensures
        merge_counts(a, a) == a,
{
    assert(merge_counts(a, a) =~= a);
}

proof fn lemma_counts_absent(s: Seq<(String, i32)>, k: Seq<char>)
    requires
        forall|i: int| 0 <= i < s.len() ==> s[i].0@ != k,
    ensures
        !counts_of(s).contains_key(k),
    decreases s.len(),
{
    if s.len() > 0 {
        lemma_counts_absent(s.drop_last(), k);
    }
}

proof fn lemma_counts_get(s: Seq<(String, i32)>, i: int)
    requires
        unique_nodes(s),
        0 <= i < s.len(),
    ensures
        counts_of(s).contains_key(s[i].0@),
        counts_of(s)[s[i].0@] == s[i].1 as int,
    decreases s.len(),
{
    if i < s.len() - 1 {
        lemma_counts_get(s.drop_last(), i);
    }
}

proof fn lemma_counts_update(s: Seq<(String, i32)>, i: int, v: i32)
    requires
        unique_nodes(s),
        0 <= i < s.len(),
    ensures
        counts_of(s.update(i, (s[i].0, v))) == counts_of(s).insert(s[i].0@, v as int),
    decreases s.len(),
{
    let t = s.update(i, (s[i].0, v));
    if i == s.len() - 1 {
        assert(t.drop_last() =~= s.drop_last());
        assert(counts_of(t) =~= counts_of(s).insert(s[i].0@, v as int));
    } else {
        let d = s.drop_last();
        assert(t.drop_last() =~= d.update(i, (d[i].0, v)));
        assert(unique_nodes(d));
        lemma_counts_update(d, i, v);
        assert(s[i].0@ != s.last().0@);
        assert(counts_of(t) =~= counts_of(s).insert(s[i].0@, v as int));
    }
}

proof fn lemma_total_update(s: Seq<(String, i32)>, i: int, v: i32)
    requires
        0 <= i < s.len(),
    ensures
        total(s.update(i, (s[i].0, v))) == total(s) - s[i].1 + v,
    decreases s.len(),
{
    let t = s.update(i, (s[i].0, v));
    if i == s.len() - 1 {
        assert(t.drop_last() =~= s.drop_last());
    } else {
        let d = s.drop_last();
        assert(t.drop_last() =~= d.update(i, (d[i].0, v)));
        lemma_total_update(d, i, v);
    }
}

proof fn lemma_counts_index(t: Seq<(String, i32)>, k: Seq<char>)
    requires
        counts_of(t).contains_key(k),
    ensures
        exists|j: int| 0 <= j < t.len() && #[trigger] t[j].0@ == k,
    decreases t.len(),
{
    if t.last().0@ != k {
        lemma_counts_index(t.drop_last(), k);
        let j = choose|j: int| 0 <= j < t.drop_last().len() && #[trigger] t.drop_last()[j].0@ == k;
        assert(t[j] == t.drop_last()[j]);
    } else {
        assert(t[t.len() - 1].0@ == k);
    }
}

proof fn lemma_unique_remove(t: Seq<(String, i32)>, j: int)
    requires
        unique_nodes(t),
        0 <= j < t.len(),
    ensures
        unique_nodes(t.remove(j)),
        forall|x: int| 0 <= x < t.remove(j).len() ==> #[trigger] t.remove(j)[x].0@ != t[j].0@,
{
    let r = t.remove(j);
    assert forall|a: int, b: int| 0 <= a < b < r.len() implies r[a].0@ != r[b].0@ by {
        let a2 = if a < j { a } else { a + 1 };
        let b2 = if b < j { b } else { b + 1 };
        assert(r[a] == t[a2] && r[b] == t[b2]);
    }
    assert forall|x: int| 0 <= x < r.len() implies #[trigger] r[x].0@ != t[j].0@ by {
        let x2 = if x < j { x } else { x + 1 };
        assert(r[x] == t[x2]);
    }
}

proof fn lemma_counts_remove(t: Seq<(String, i32)>, j: int)
    requires
        unique_nodes(t),
        0 <= j < t.len(),
    ensures
        counts_of(t.remove(j)) == counts_of(t).remove(t[j].0@),
    decreases t.len(),
{
    let r = t.remove(j);
    if j == t.len() - 1 {
        assert(r =~= t.drop_last());
        assert forall|x: int| 0 <= x < r.len() implies r[x].0@ != t[j].0@ by {}
        lemma_counts_absent(r, t[j].0@);
        assert(counts_of(r) =~= counts_of(t).remove(t[j].0@));
    } else {
        let d = t.drop_last();
        assert(unique_nodes(d));
        lemma_counts_remove(d, j);
        assert(r.drop_last() =~= d.remove(j));
        assert(r.last() == t.last());
        assert(t[j].0@ != t.last().0@);
        assert(counts_of(r) =~= counts_of(t).remove(t[j].0@));
    }
}

proof fn lemma_total_remove(t: Seq<(String, i32)>, j: int)
    requires
        0 <= j < t.len(),
    ensures
        total(t.remove(j)) == total(t) - t[j].1,
    decreases t.len(),
{
    let r = t.remove(j);
    if j == t.len() - 1 {
        assert(r =~= t.drop_last());
    } else {
        let d = t.drop_last();
        lemma_total_remove(d, j);
        assert(r.drop_last() =~= d.remove(j));
        assert(r.last() == t.last());
    }
}

/// Two lists of distinct nodes with the same counts have the same sum.
proof fn lemma_total_of_counts(s: Seq<(String, i32)>, t: Seq<(String, i32)>)
    requires
        unique_nodes(s),
        unique_nodes(t),
        counts_of(s) == counts_of(t),
    ensures
        total(s) == total(t),
    decreases s.len(),
{
    if s.len() == 0 {
        if t.len() > 0 {
            assert(counts_of(t).contains_key(t.last().0@));
        }
    } else {
        let k = s.last().0@;
        let d = s.drop_last();
        assert(unique_nodes(d));
        assert forall|x: int| 0 <= x < d.len() implies d[x].0@ != k by {
            assert(d[x] == s[x]);
        }
        lemma_counts_absent(d, k);
        assert(counts_of(d) =~= counts_of(s).remove(k));
        assert(counts_of(t).contains_key(k));
        lemma_counts_index(t, k);
        let j = choose|j: int| 0 <= j < t.len() && #[trigger] t[j].0@ == k;
        lemma_counts_get(t, j);
        lemma_unique_remove(t, j);
        lemma_counts_remove(t, j);
        lemma_total_remove(t, j);
        lemma_total_of_counts(d, t.remove(j));
    }
}

/// A counter that only grows: one count per node, none below zero.
pub struct GCounter {
    values: Vec<(String, i32)>,
}

impl GCounter {
    /// Each node's count.
    pub closed spec fn counts(&self) -> Map<Seq<char>, int> {
        counts_of(self.values@)
    }

    /// The counter's value: the sum of the counts.
    pub closed spec fn sum(&self) -> int {
        total(self.values@)
    }

    pub closed spec fn wf(&self) -> bool {
        &&& unique_nodes(self.values@)
        &&& forall|i: int| 0 <= i < self.values@.len() ==> self.values@[i].1 >= 0
    }

    pub fn init() -> (r: GCounter)
        ensures
            r.wf(),
            r.counts() == Map::<Seq<char>, int>::empty(),
            r.sum() == 0,
    {
        GCounter { values: Vec::new() }
    }

    /// The sum of the counts.
    pub fn read(&self) -> (r: i32)
        requires
            self.wf(),
            self.sum() <= i32::MAX,
        ensures
            r == self.sum(),
    {
        let mut sum: i32 = 0;
        let mut i: usize = 0;
        while i < self.values.len()
            invariant
                self.wf(),
                self.sum() <= i32::MAX,
                i <= self.values@.len(),
                sum == total(self.values@.subrange(0, i as int)),
            decreases self.values@.len() - i,
        {
            proof {
                assert(self.values@.subrange(0, i as int + 1).drop_last() =~= self.values@.subrange(0, i as int));
                lemma_total_prefix(self.values@, i as int + 1);
            }
            sum = sum + self.values[i].1;
            i = i + 1;
        }
        proof {
            assert(self.values@.subrange(0, i as int) =~= self.values@);
        }
        sum
    }

    /// The count of `node`, zero where it has none.
    pub fn count_of(&self, node: &String) -> (r: i32)
        requires
            self.wf(),
        ensures
            r == count_or_zero(self.counts(), node@),
    {
        match self.find(node) {
            Some(i) => {
                proof {
                    lemma_counts_get(self.values@, i as int);
                }
                self.values[i].1
            },
            None => {
                proof {
                    lemma_counts_absent(self.values@, node@);
                }
                0
            },
        }
    }

    /// The sum of the counts, however large.
    pub fn total_sum(&self) -> (r: i128)
        requires
            self.wf(),
        ensures
            r == self.sum(),
    {
        let mut sum: i128 = 0;
        let mut i: usize = 0;
        while i < self.values.len()
            invariant
                self.wf(),
                i <= self.values@.len(),
                sum == total(self.values@.subrange(0, i as int)),
                0 <= sum <= i * (i32::MAX as int),
            decreases self.values@.len() - i,
        {
            proof {
                assert(self.values@.subrange(0, i as int + 1).drop_last() =~= self.values@.subrange(0, i as int));
                assert(i * (i32::MAX as int) + i32::MAX == (i + 1) * (i32::MAX as int)) by (nonlinear_arith);
                assert((i + 1) * (i32::MAX as int) <= 18446744073709551616 * 2147483647) by (nonlinear_arith)
                    requires i < 18446744073709551616int;
            }
            sum = sum + self.values[i].1 as i128;
            i = i + 1;
        }
        proof {
            assert(self.values@.subrange(0, i as int) =~= self.values@);
        }
        sum
    }

    fn find(&self, node: &String) -> (r: Option<usize>)
        requires
            self.wf(),
        ensures
            match r {
                Some(i) => i < self.values@.len() && self.values@[i as int].0@ == node@,
                None => forall|i: int| 0 <= i < self.values@.len() ==> self.values@[i].0@ != node@,
            },
    {
        let mut i: usize = 0;
        while i < self.values.len()
            invariant
                i <= self.values@.len(),
                forall|j: int| 0 <= j < i ==> self.values@[j].0@ != node@,
            decreases self.values@.len() - i,
        {
            if same_text(&self.values[i].0, node) {
                return Some(i);
            }
            i = i + 1;
        }
        None
    }

    /// Adds `delta` to the count of `node_id`.
    pub fn add(&mut self, node_id: String, delta: i32)
        requires
            old(self).wf(),
            delta >= 0,
            count_or_zero(old(self).counts(), node_id@) + delta <= i32::MAX,
        ensures
            final(self).wf(),
            final(self).counts() == old(self).counts().insert(
                node_id@,
                count_or_zero(old(self).counts(), node_id@) + delta,
            ),
            final(self).sum() == old(self).sum() + delta,
    {
        match self.find(&node_id) {
            Some(i) => {
                proof {
                    lemma_counts_get(self.values@, i as int);
                    lemma_counts_update(self.values@, i as int, (self.values@[i as int].1 + delta) as i32);
                    lemma_total_update(self.values@, i as int, (self.values@[i as int].1 + delta) as i32);
                }
                let (k, v) = self.values.remove(i);
                self.values.insert(i, (k, v + delta));
                proof {
                    assert(self.values@ =~= old(self).values@.update(i as int, (old(self).values@[i as int].0, (v + delta) as i32)));
                }
            },
            None => {
                proof {
                    lemma_counts_absent(self.values@, node_id@);
                }
                let ghost before = self.values@;
                self.values.push((node_id, delta));
                proof {
                    assert(self.values@.drop_last() =~= before);
                    assert forall|i: int, j: int| 0 <= i < j < self.values@.len() implies self.values@[i].0@ != self.values@[j].0@ by {
                        if j < before.len() {
                            assert(self.values@[i] == before[i] && self.values@[j] == before[j]);
                        } else {
                            assert(self.values@[i] == before[i]);
                        }
                    }
                }
            },
        }
    }

    /// Takes in another replica's counter: every node gets the larger of
    /// the two counts.
    pub fn merge(&mut self, other: GCounter)
        requires
            old(self).wf(),
            other.wf(),
        ensures
            final(self).wf(),
            final(self).counts() == merge_counts(old(self).counts(), other.counts()),
            other.counts() == old(self).counts() ==> final(self).sum() == old(self).sum(),
    {
        let ghost a = self.counts();
        let ghost start = self.values@;
        let mut i: usize = 0;
        proof {
            assert(other.values@.subrange(0, 0) =~= Seq::<(String, i32)>::empty());
            assert(merge_counts(a, Map::empty()) =~= a);
        }
        while i < other.values.len()
            invariant
                self.wf(),
                other.wf(),
                i <= other.values@.len(),
                self.counts() == merge_counts(a, counts_of(other.values@.subrange(0, i as int))),
            decreases other.values@.len() - i,
        {
            let ghost b = counts_of(other.values@.subrange(0, i as int));
            let k = &other.values[i].0;
            let v1 = other.values[i].1;
            proof {
                let p = other.values@.subrange(0, i as int + 1);
                assert(p.drop_last() =~= other.values@.subrange(0, i as int));
                assert(p.last() == other.values@[i as int]);
                assert forall|j: int| 0 <= j < i implies other.values@.subrange(0, i as int)[j].0@ != k@ by {
                    assert(other.values@.subrange(0, i as int)[j] == other.values@[j]);
                }
                lemma_counts_absent(other.values@.subrange(0, i as int), k@);
            }
            match self.find(k) {
                Some(j) => {
                    let v2 = self.values[j].1;
                    proof {
                        lemma_counts_get(self.values@, j as int);
                    }
                    if v1 > v2 {
                        let ghost before = self.values@;
                        proof {
                            lemma_counts_update(before, j as int, v1);
                        }
                        let (name, _) = self.values.remove(j);
                        self.values.insert(j, (name, v1));
                        proof {
                            assert(self.values@ =~= before.update(j as int, (before[j as int].0, v1)));
                            assert forall|x: int, y: int| 0 <= x < y < self.values@.len() implies self.values@[x].0@ != self.values@[y].0@ by {
                                assert(self.values@[x].0 == before[x].0 && self.values@[y].0 == before[y].0);
                            }
                        }
                    }
                },
                None => {
                    proof {
                        lemma_counts_absent(self.values@, k@);
                    }
                    let ghost before = self.values@;
                    self.values.push((k.clone(), v1));
                    proof {
                        assert(self.values@.drop_last() =~= before);
                        assert forall|x: int, y: int| 0 <= x < y < self.values@.len() implies self.values@[x].0@ != self.values@[y].0@ by {
                            if y < before.len() {
                                assert(self.values@[x] == before[x] && self.values@[y] == before[y]);
                            } else {
                                assert(self.values@[x] == before[x]);
                            }
                        }
                    }
                },
            }
            i = i + 1;
            proof {
                assert(self.counts() =~= merge_counts(a, counts_of(other.values@.subrange(0, i as int))));
            }
        }
        proof {
            assert(other.values@.subrange(0, i as int) =~= other.values@);
            if other.counts() == a {
                lemma_merge_idempotent(a);
                lemma_total_of_counts(self.values@, start);
            }
        }
    }
}

proof fn lemma_total_prefix(s: Seq<(String, i32)>, n: int)
    requires
        0 <= n <= s.len(),
        forall|i: int| 0 <= i < s.len() ==> s[i].1 >= 0,
    ensures
        0 <= total(s.subrange(0, n)) <= total(s),
    decreases s.len(),
{
    if n < s.len() {
        assert(s.drop_last().subrange(0, n) =~= s.subrange(0, n));
        lemma_total_prefix(s.drop_last(), n);
    } else {
        assert(s.subrange(0, n) =~= s);
        lemma_total_nonneg(s);
    }
}

proof fn lemma_total_nonneg(s: Seq<(String, i32)>)
    requires
        forall|i: int| 0 <= i < s.len() ==> s[i].1 >= 0,
    ensures
        total(s) >= 0,
    decreases s.len(),
{
    if s.len() > 0 {
        lemma_total_nonneg(s.drop_last());
    }
}

/// A counter that goes up and down: increments and decrements are kept
/// as two grow-only counters.
pub struct PnCounter {
    inc: GCounter,
    dec: GCounter,
}

impl PnCounter {
    pub closed spec fn incs(&self) -> Map<Seq<char>, int> {
        self.inc.counts()
    }

    pub closed spec fn decs(&self) -> Map<Seq<char>, int> {
        self.dec.counts()
    }

    pub closed spec fn up(&self) -> int {
        self.inc.sum()
    }

    pub closed spec fn down(&self) -> int {
        self.dec.sum()
    }

    pub closed spec fn wf(&self) -> bool {
        self.inc.wf() && self.dec.wf()
    }

    pub fn init() -> (r: PnCounter)
        ensures
            r.wf(),
            r.incs() == Map::<Seq<char>, int>::empty(),
            r.decs() == Map::<Seq<char>, int>::empty(),
            r.up() == 0,
            r.down() == 0,
    {
        PnCounter { inc: GCounter::init(), dec: GCounter::init() }
    }

    /// A counter of the given increments and decrements.
    pub fn from_parts(inc: GCounter, dec: GCounter) -> (r: PnCounter)
        requires
            inc.wf(),
            dec.wf(),
        ensures
            r.wf(),
            r.incs() == inc.counts(),
            r.decs() == dec.counts(),
    {
        PnCounter { inc, dec }
    }

    /// The increments counted for `node`.
    pub fn inc_of(&self, node: &String) -> (r: i32)
        requires
            self.wf(),
        ensures
            r == count_or_zero(self.incs(), node@),
    {
        self.inc.count_of(node)
    }

    /// The decrements counted for `node`.
    pub fn dec_of(&self, node: &String) -> (r: i32)
        requires
            self.wf(),
        ensures
            r == count_or_zero(self.decs(), node@),
    {
        self.dec.count_of(node)
    }

    /// The sum of the increments.
    pub fn up_total(&self) -> (r: i128)
        requires
            self.wf(),
        ensures
            r == self.up(),
    {
        self.inc.total_sum()
    }

    /// The sum of the decrements.
    pub fn down_total(&self) -> (r: i128)
        requires
            self.wf(),
        ensures
            r == self.down(),
    {
        self.dec.total_sum()
    }

    /// Each node's increments.
    pub fn inc_entries(&self) -> (r: Vec<(String, i32)>)
        ensures
            counts_of(r@) == self.incs(),
    {
        self.inc.entries()
    }

    /// Each node's decrements.
    pub fn dec_entries(&self) -> (r: Vec<(String, i32)>)
        ensures
            counts_of(r@) == self.decs(),
    {
        self.dec.entries()
    }

    /// Increments less decrements.
    pub fn read(&self) -> (r: i32)
        requires
            self.wf(),
            self.up() <= i32::MAX,
            self.down() <= i32::MAX,
        ensures
            r == self.up() - self.down(),
    {
        proof {
            self.inc.lemma_sum_nonneg();
            self.dec.lemma_sum_nonneg();
        }
        self.inc.read() - self.dec.read()
    }

    /// Takes in another replica's counter, both halves merged.
    pub fn merge(&mut self, other: PnCounter)
        requires
            old(self).wf(),
            other.wf(),
        ensures
            final(self).wf(),
            final(self).incs() == merge_counts(old(self).incs(), other.incs()),
            final(self).decs() == merge_counts(old(self).decs(), other.decs()),
            other.incs() == old(self).incs() && other.decs() == old(self).decs() ==> final(self).up()
                == old(self).up() && final(self).down() == old(self).down(),
    {
        self.inc.merge(other.inc);
        self.dec.merge(other.dec);
    }

    /// A counter's reading is fixed by its per-node counts: two counters
    /// with the same counts, such as two replicas that merged each other's
    /// state, read the same.
    pub proof fn lemma_same_counts_same_sums(&self, other: &PnCounter)
        requires
            self.wf(),
            other.wf(),
            self.incs() == other.incs(),
            self.decs() == other.decs(),
        ensures
            self.up() == other.up(),
            self.down() == other.down(),
    {
        self.inc.lemma_sum_of_counts(&other.inc);
        self.dec.lemma_sum_of_counts(&other.dec);
    }

    /// Two replicas that each merge the other's counter read the same.
    pub proof fn lemma_merged_replicas_read_same(a: &PnCounter, b: &PnCounter, a2: &PnCounter, b2: &PnCounter)
        requires
            a2.wf(),
            b2.wf(),
            a2.incs() == merge_counts(a.incs(), b.incs()),
            a2.decs() == merge_counts(a.decs(), b.decs()),
            b2.incs() == merge_counts(b.incs(), a.incs()),
            b2.decs() == merge_counts(b.decs(), a.decs()),
        ensures
            a2.up() == b2.up(),
            a2.down() == b2.down(),
    {
        lemma_merge_commutative(a.incs(), b.incs());
        lemma_merge_commutative(a.decs(), b.decs());
        a2.lemma_same_counts_same_sums(b2);
    }

    /// Counts `delta` for `node_id`: a positive one or zero as an
    /// increment, a negative one as a decrement of its magnitude.
    pub fn add(&mut self, node_id: String, delta: i32)
        requires
            old(self).wf(),
            delta > i32::MIN,
            delta >= 0 ==> count_or_zero(old(self).incs(), node_id@) + delta <= i32::MAX,
            delta < 0 ==> count_or_zero(old(self).decs(), node_id@) - delta <= i32::MAX,
        ensures
            final(self).wf(),
            delta >= 0 ==> final(self).incs() == old(self).incs().insert(
                node_id@,
                count_or_zero(old(self).incs(), node_id@) + delta,
            ),
            delta >= 0 ==> final(self).decs() == old(self).decs(),
            delta >= 0 ==> final(self).up() == old(self).up() + delta,
            delta >= 0 ==> final(self).down() == old(self).down(),
            delta < 0 ==> final(self).decs() == old(self).decs().insert(
                node_id@,
                count_or_zero(old(self).decs(), node_id@) - delta,
            ),
            delta < 0 ==> final(self).incs() == old(self).incs(),
            delta < 0 ==> final(self).down() == old(self).down() - delta,
            delta < 0 ==> final(self).up() == old(self).up(),
    {
        if 0 <= delta {
            self.inc.add(node_id, delta);
        } else {
            self.dec.add(node_id, -delta);
        }
    }
}

impl GCounter {
    /// The sum of a counter is fixed by its counts: counters with the same
    /// counts read the same.
    pub proof fn lemma_sum_of_counts(&self, other: &GCounter)
        requires
            self.wf(),
            other.wf(),
            self.counts() == other.counts(),
        ensures
            self.sum() == other.sum(),
    {
        lemma_total_of_counts(self.values@, other.values@);
    }

    /// Each node with its count, in the order the nodes were first counted.
    pub fn entries(&self) -> (r: Vec<(String, i32)>)
        ensures
            counts_of(r@) == self.counts(),
    {
        let mut out: Vec<(String, i32)> = Vec::new();
        let mut i: usize = 0;
        while i < self.values.len()
            invariant
                i <= self.values@.len(),
                out@.len() == i,
                counts_of(out@) == counts_of(self.values@.subrange(0, i as int)),
            decreases self.values@.len() - i,
        {
            let ghost before = out@;
            out.push((self.values[i].0.clone(), self.values[i].1));
            proof {
                assert(out@.drop_last() =~= before);
                assert(self.values@.subrange(0, i as int + 1).drop_last() =~= self.values@.subrange(0, i as int));
            }
            i = i + 1;
        }
        proof {
            assert(self.values@.subrange(0, i as int) =~= self.values@);
        }
        out
    }

    pub proof fn lemma_sum_nonneg(&self)
        requires
            self.wf(),
        ensures
            self.sum() >= 0,
    {
        lemma_total_nonneg(self.values@);
    }
}

} // verus!
