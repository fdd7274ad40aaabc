//! The result report: a mapping from file path to match count, with unique
//! keys. One scan task's successful count replaces any prior value for its
//! path; a failed task leaves the report untouched, so its path is absent.

use vstd::prelude::*;

verus! {

/// All entry keys are distinct by content.
pub open spec fn unique_entry_keys(es: Seq<(String, usize)>) -> bool {
    forall|i: int, j: int| 0 <= i < j < es.len() ==> es[i].0@ != es[j].0@
}

/// The mapping an entry list denotes; a later entry overrides an earlier one
/// with the same key.
pub open spec fn map_of_entries(es: Seq<(String, usize)>) -> Map<Seq<char>, usize>
    decreases es.len(),
{
    if es.len() == 0 {
        Map::empty()
    } else {
        map_of_entries(es.drop_last()).insert(es.last().0@, es.last().1)
    }
}

/// A key is in the mapping exactly when some entry carries it.
pub proof fn lemma_map_of_entries_contains(es: Seq<(String, usize)>, k: Seq<char>)
    ensures
        map_of_entries(es).contains_key(k) <==> (exists|i: int|
            0 <= i < es.len() && es[i].0@ == k),
    decreases es.len(),
{
    if es.len() == 0 {
    } else {
        let es1 = es.drop_last();
        lemma_map_of_entries_contains(es1, k);
        assert(forall|i: int| 0 <= i < es1.len() ==> es1[i] == es[i]);
        if map_of_entries(es).contains_key(k) {
            if k == es.last().0@ {
                assert(es[es.len() - 1].0@ == k);
            } else {
                let i = choose|i: int| 0 <= i < es1.len() && es1[i].0@ == k;
                assert(es[i].0@ == k);
            }
        }
        if exists|i: int| 0 <= i < es.len() && es[i].0@ == k {
            let i = choose|i: int| 0 <= i < es.len() && es[i].0@ == k;
            if i < es.len() - 1 {
                assert(es1[i].0@ == k);
            }
        }
    }
}

/// With unique keys, each entry's key maps to that entry's count.
pub proof fn lemma_map_of_entries_value(es: Seq<(String, usize)>, i: int)
    requires
        unique_entry_keys(es),
        0 <= i < es.len(),
    ensures
        map_of_entries(es).contains_key(es[i].0@),
        map_of_entries(es)[es[i].0@] == es[i].1,
    decreases es.len(),
{
    if i == es.len() - 1 {
    } else {
        let es1 = es.drop_last();
        assert(forall|q: int| 0 <= q < es1.len() ==> es1[q] == es[q]);
        lemma_map_of_entries_value(es1, i);
    }
}

/// With unique keys, the mapping has exactly one key per entry.
pub proof fn lemma_map_of_entries_len(es: Seq<(String, usize)>)
    requires
        unique_entry_keys(es),
    ensures
        map_of_entries(es).dom().finite(),
        map_of_entries(es).dom().len() == es.len(),
    decreases es.len(),
{
    if es.len() == 0 {
        assert(map_of_entries(es).dom() =~= Set::<Seq<char>>::empty());
    } else {
        let es1 = es.drop_last();
        assert(forall|q: int| 0 <= q < es1.len() ==> es1[q] == es[q]);
        lemma_map_of_entries_len(es1);
        lemma_map_of_entries_contains(es1, es.last().0@);
        assert(!map_of_entries(es1).contains_key(es.last().0@));
    }
}

/// Removing an entry removes exactly its key from the mapping.
pub proof fn lemma_map_of_entries_remove(es: Seq<(String, usize)>, i: int)
    requires
        unique_entry_keys(es),
        0 <= i < es.len(),
    ensures
        unique_entry_keys(es.remove(i)),
        map_of_entries(es.remove(i)) == map_of_entries(es).remove(es[i].0@),
    decreases es.len(),
{
    let r = es.remove(i);
    assert(forall|q: int| 0 <= q < i ==> r[q] == es[q]);
    assert(forall|q: int| i <= q < r.len() ==> r[q] == es[q + 1]);
    if i == es.len() - 1 {
        let es1 = es.drop_last();
        assert(r =~= es1);
        lemma_map_of_entries_contains(es1, es.last().0@);
        assert(forall|q: int| 0 <= q < es1.len() ==> es1[q] == es[q]);
        assert(!map_of_entries(es1).contains_key(es.last().0@));
        assert(map_of_entries(es1) =~= map_of_entries(es).remove(es[i].0@));
    } else {
        let es1 = es.drop_last();
        assert(forall|q: int| 0 <= q < es1.len() ==> es1[q] == es[q]);
        lemma_map_of_entries_remove(es1, i);
        assert(r.drop_last() =~= es1.remove(i));
        assert(r.last() == es.last());
        assert(map_of_entries(r) == map_of_entries(es1.remove(i)).insert(
            es.last().0@,
            es.last().1,
        ));
        assert(map_of_entries(es1).remove(es[i].0@).insert(es.last().0@, es.last().1)
            =~= map_of_entries(es1).insert(es.last().0@, es.last().1).remove(es[i].0@));
    }
}

/// The report: file path to match count, keys unique.
pub struct Report {
    entries: Vec<(String, usize)>,
}

impl View for Report {
    type V = Map<Seq<char>, usize>;

    closed spec fn view(&self) -> Map<Seq<char>, usize> {
        map_of_entries(self.entries@)
    }
}

impl Report {
    /// The report's entries carry distinct keys.
    pub closed spec fn wf(&self) -> bool {
        unique_entry_keys(self.entries@)
    }

    /// An empty report.
    pub fn new() -> (r: Report)
        ensures
            r.wf(),
            r@ == Map::<Seq<char>, usize>::empty(),
    {
        Report { entries: Vec::new() }
    }

    /// Records `count` under `path`, replacing any prior value for that path.
    pub fn insert(&mut self, path: String, count: usize)
        requires
            old(self).wf(),
        ensures
            final(self).wf(),
            final(self)@ == old(self)@.insert(path@, count),
    {
        let ghost orig = self.entries@;
        let mut i: usize = 0;
        while i < self.entries.len()
            invariant
                orig == old(self).entries@,
                self.entries@ == orig,
                unique_entry_keys(orig),
                i <= orig.len(),
                forall|q: int| 0 <= q < i ==> orig[q].0@ != path@,
            decreases orig.len() - i,
        {
            if self.entries[i].0 == path {
                proof {
                    lemma_map_of_entries_remove(orig, i as int);
                }
                let _prior = self.entries.remove(i);
                self.entries.push((path, count));
                proof {
                    let es = self.entries@;
                    assert(es.drop_last() =~= orig.remove(i as int));
                    assert(es.last() == (path, count));
                    assert(map_of_entries(es) == map_of_entries(orig.remove(i as int)).insert(
                        path@,
                        count,
                    ));
                    assert(map_of_entries(orig).remove(orig[i as int].0@).insert(path@, count)
                        =~= map_of_entries(orig).insert(path@, count));
                    assert forall|a: int, b: int| 0 <= a < b < es.len() implies es[a].0@
                        != es[b].0@ by {
                        if b == es.len() - 1 {
                            assert(es[a] == orig.remove(i as int)[a]);
                        }
                    }
                }
                return ;
            }
            i += 1;
        }
        self.entries.push((path, count));
        proof {
            let es = self.entries@;
            assert(es.drop_last() =~= orig);
            assert(es.last() == (path, count));
            assert forall|a: int, b: int| 0 <= a < b < es.len() implies es[a].0@ != es[b].0@ by {
                if b == es.len() - 1 {
                    assert(es[a] == orig[a]);
                }
            }
        }
    }

    /// Merges one scan task's outcome: a successful count is recorded under
    /// its path, a failed task changes nothing, so its path stays absent.
    pub fn merge_result(&mut self, path: String, result: Option<usize>)
        requires
            old(self).wf(),
        ensures
            final(self).wf(),
            final(self)@ == match result {
                Some(count) => old(self)@.insert(path@, count),
                None => old(self)@,
            },
    {
        match result {
            Some(count) => self.insert(path, count),
            None => (),
        }
    }

    /// The count recorded for `path`, if any.
    pub fn get(&self, path: &String) -> (r: Option<usize>)
        requires
            self.wf(),
        ensures
            r == if self@.contains_key(path@) {
                Some(self@[path@])
            } else {
                None::<usize>
            },
    {
        let mut i: usize = 0;
        while i < self.entries.len()
            invariant
                self.wf(),
                i <= self.entries@.len(),
                forall|q: int| 0 <= q < i ==> self.entries@[q].0@ != path@,
            decreases self.entries@.len() - i,
        {
            if self.entries[i].0 == *path {
                proof {
                    lemma_map_of_entries_value(self.entries@, i as int);
                }
                return Some(self.entries[i].1);
            }
            i += 1;
        }
        proof {
            lemma_map_of_entries_contains(self.entries@, path@);
        }
        None
    }

    /// How many paths the report holds.
    pub fn len(&self) -> (n: usize)
        requires
            self.wf(),
        ensures
            n == self@.dom().len(),
    {
        proof {
            lemma_map_of_entries_len(self.entries@);
        }
        self.entries.len()
    }

    /// Hands the report out as a list of pairs: every pair is in the mapping,
    /// every key of the mapping appears, and no key appears twice.
    pub fn into_pairs(self) -> (pairs: Vec<(String, usize)>)
        requires
            self.wf(),
        ensures
            pairs@.len() == self@.dom().len(),
            forall|i: int|
                0 <= i < pairs@.len() ==> self@.contains_key(#[trigger] pairs@[i].0@)
                    && self@[pairs@[i].0@] == pairs@[i].1,
            forall|k: Seq<char>|
                self@.contains_key(k) ==> exists|i: int|
                    0 <= i < pairs@.len() && #[trigger] pairs@[i].0@ == k,
    {
        proof {
            lemma_map_of_entries_len(self.entries@);
            assert forall|i: int| 0 <= i < self.entries@.len() implies self@.contains_key(
                #[trigger] self.entries@[i].0@,
            ) && self@[self.entries@[i].0@] == self.entries@[i].1 by {
                lemma_map_of_entries_value(self.entries@, i);
            }
            assert forall|k: Seq<char>| self@.contains_key(k) implies exists|i: int|
                0 <= i < self.entries@.len() && #[trigger] self.entries@[i].0@ == k by {
                lemma_map_of_entries_contains(self.entries@, k);
            }
        }
        self.entries
    }
}

/// The report that merging a sequence of per-file scan outcomes produces:
/// successful counts are recorded under their paths, failures are dropped.
pub open spec fn aggregated(rs: Seq<(Seq<char>, Option<usize>)>) -> Map<Seq<char>, usize>
    decreases rs.len(),
{
    if rs.len() == 0 {
        Map::empty()
    } else {
        let m = aggregated(rs.drop_last());
        match rs.last().1 {
            Some(count) => m.insert(rs.last().0, count),
            None => m,
        }
    }
}

/// The outcome sequence, by content.
pub open spec fn result_views(rs: Seq<(String, Option<usize>)>) -> Seq<(Seq<char>, Option<usize>)> {
    rs.map_values(|e: (String, Option<usize>)| (e.0@, e.1))
}

/// All outcome paths are distinct, as one enumeration of a directory tree
/// yields them.
pub open spec fn unique_result_keys(rs: Seq<(Seq<char>, Option<usize>)>) -> bool {
    forall|i: int, j: int| 0 <= i < j < rs.len() ==> rs[i].0 != rs[j].0
}

/// A path is in the aggregated report exactly when some outcome carries it
/// with a successful count.
pub proof fn lemma_aggregated_contains(rs: Seq<(Seq<char>, Option<usize>)>, k: Seq<char>)
    ensures
        aggregated(rs).contains_key(k) <==> (exists|i: int|
            0 <= i < rs.len() && rs[i].0 == k && rs[i].1 is Some),
    decreases rs.len(),
{
    if rs.len() == 0 {
    } else {
        let rs1 = rs.drop_last();
        lemma_aggregated_contains(rs1, k);
        assert(forall|i: int| 0 <= i < rs1.len() ==> rs1[i] == rs[i]);
        if aggregated(rs).contains_key(k) {
            if rs.last().1 is Some && rs.last().0 == k {
                assert(rs[rs.len() - 1].0 == k && rs[rs.len() - 1].1 is Some);
            } else {
                let i = choose|i: int| 0 <= i < rs1.len() && rs1[i].0 == k && rs1[i].1 is Some;
                assert(rs[i].0 == k && rs[i].1 is Some);
            }
        }
        if exists|i: int| 0 <= i < rs.len() && rs[i].0 == k && rs[i].1 is Some {
            let i = choose|i: int| 0 <= i < rs.len() && rs[i].0 == k && rs[i].1 is Some;
            if i < rs.len() - 1 {
                assert(rs1[i].0 == k && rs1[i].1 is Some);
            }
        }
    }
}

/// With distinct paths, each successful outcome's count is what the
/// aggregated report holds for its path.
pub proof fn lemma_aggregated_value(rs: Seq<(Seq<char>, Option<usize>)>, i: int)
    requires
        unique_result_keys(rs),
        0 <= i < rs.len(),
        rs[i].1 is Some,
    ensures
        aggregated(rs).contains_key(rs[i].0),
        aggregated(rs)[rs[i].0] == rs[i].1.unwrap(),
    decreases rs.len(),
{
    if i == rs.len() - 1 {
    } else {
        let rs1 = rs.drop_last();
        assert(forall|q: int| 0 <= q < rs1.len() ==> rs1[q] == rs[q]);
        lemma_aggregated_value(rs1, i);
    }
}

/// Merging no outcomes — a scan of an empty directory — yields the empty
/// report.
pub proof fn lemma_empty_scan_empty_report()
    ensures
        aggregated(Seq::<(Seq<char>, Option<usize>)>::empty()) == Map::<Seq<char>, usize>::empty(),
{
}

/// A file whose scan failed is absent from the aggregated report, and the
/// other files' counts are untouched (each successful outcome still maps its
/// path to its count).
pub proof fn lemma_failed_scan_absent(rs: Seq<(Seq<char>, Option<usize>)>, i: int)
    requires
        unique_result_keys(rs),
        0 <= i < rs.len(),
        rs[i].1 is None,
    ensures
        !aggregated(rs).contains_key(rs[i].0),
        forall|j: int|
            0 <= j < rs.len() && rs[j].1 is Some ==> aggregated(rs).contains_key(#[trigger] rs[j].0)
                && aggregated(rs)[rs[j].0] == rs[j].1.unwrap(),
{
    lemma_aggregated_contains(rs, rs[i].0);
    if aggregated(rs).contains_key(rs[i].0) {
        let j = choose|j: int| 0 <= j < rs.len() && rs[j].0 == rs[i].0 && rs[j].1 is Some;
        assert(j != i);
    }
    assert forall|j: int| 0 <= j < rs.len() && rs[j].1 is Some implies aggregated(
        rs,
    ).contains_key(#[trigger] rs[j].0) && aggregated(rs)[rs[j].0] == rs[j].1.unwrap() by {
        lemma_aggregated_value(rs, j);
    }
}

/// Aggregation is order-independent: two runs that produce the same set of
/// per-file outcomes — in whatever completion order — yield reports with
/// identical key-value pairs.
pub proof fn lemma_aggregation_order_independent(
    rs1: Seq<(Seq<char>, Option<usize>)>,
    rs2: Seq<(Seq<char>, Option<usize>)>,
)
    requires
        unique_result_keys(rs1),
        unique_result_keys(rs2),
        forall|e: (Seq<char>, Option<usize>)| rs1.contains(e) <==> rs2.contains(e),
    ensures
        aggregated(rs1) == aggregated(rs2),
{
    assert forall|k: Seq<char>| #[trigger] aggregated(rs1).dom().contains(k) implies aggregated(
        rs2,
    ).dom().contains(k) && aggregated(rs2)[k] == aggregated(rs1)[k] by {
        lemma_aggregated_contains(rs1, k);
        let i = choose|i: int| 0 <= i < rs1.len() && rs1[i].0 == k && rs1[i].1 is Some;
        lemma_aggregated_value(rs1, i);
        assert(rs1.contains(rs1[i]));
        assert(rs2.contains(rs1[i]));
        let j = choose|j: int| 0 <= j < rs2.len() && rs2[j] == rs1[i];
        lemma_aggregated_value(rs2, j);
    }
    assert forall|k: Seq<char>| #[trigger] aggregated(rs2).dom().contains(k) implies aggregated(
        rs1,
    ).dom().contains(k) by {
        lemma_aggregated_contains(rs2, k);
        let i = choose|i: int| 0 <= i < rs2.len() && rs2[i].0 == k && rs2[i].1 is Some;
        assert(rs2.contains(rs2[i]));
        assert(rs1.contains(rs2[i]));
        let j = choose|j: int| 0 <= j < rs1.len() && rs1[j] == rs2[i];
        lemma_aggregated_value(rs1, j);
    }
    assert(aggregated(rs1) =~= aggregated(rs2));
}

/// Merges a whole sequence of per-file scan outcomes into one report, the way
/// the scan coordinator does as tasks complete.
pub fn aggregate_results(results: Vec<(String, Option<usize>)>) -> (r: Report)
    ensures
        r.wf(),
        r@ == aggregated(result_views(results@)),
{
    let mut report = Report::new();
    let ghost rv = result_views(results@);
    let mut i: usize = 0;
    while i < results.len()
        invariant
            rv == result_views(results@),
            i <= results@.len(),
            report.wf(),
            report@ == aggregated(rv.take(i as int)),
        decreases results@.len() - i,
    {
        let path = results[i].0.clone();
        let outcome = results[i].1;
        report.merge_result(path, outcome);
        proof {
            assert(rv.take(i + 1).drop_last() =~= rv.take(i as int));
            assert(rv.take(i + 1).last() == rv[i as int]);
        }
        i += 1;
    }
    proof {
        assert(rv.take(results@.len() as int) =~= rv);
    }
    report
}

} // verus!
