//! The report: per-author entries with line counts and percentages,
//! sorted by descending whole-percent, together with the grand total.

use vstd::prelude::*;
use vstd::arithmetic::div_mod::lemma_multiply_divide_lt;
use vstd::arithmetic::mul::lemma_mul_inequality;
use crate::tally::{AuthorCount, Tally, counts_of, distinct_authors, sum_lines};
use crate::tally::{lemma_counts_of_missing, lemma_sum_lines_bounds};

verus! {

/// One line of the report: an author, the lines attributed to them,
/// and that count as a share of the total.
pub struct ReportEntry {
    pub author: String,
    pub lines: u64,
    /// Whole percentage points, truncated: the sort key.
    pub percent_whole: u32,
    /// Tenths of a percent, rounded half up: what is displayed.
    pub percent_tenths: u32,
}

/// The full report: total line count and sorted per-author entries.
pub struct Report {
    pub total: u64,
    pub entries: Vec<ReportEntry>,
}

/// Whole percentage points of `lines` out of `total`, truncated.
pub open spec fn whole_percent(lines: nat, total: nat) -> nat {
    if total == 0 {
        0
    } else {
        lines * 100 / total
    }
}

/// Tenths of a percent of `lines` out of `total`, rounded to the
/// nearest tenth, halves up.
pub open spec fn tenths_percent(lines: nat, total: nat) -> nat {
    if total == 0 {
        0
    } else {
        (lines * 2000 + total) / (2 * total)
    }
}

/// The counts held by report entries, as a map from author to count.
pub open spec fn report_counts(s: Seq<ReportEntry>) -> Map<Seq<char>, nat>
    decreases s.len(),
{
    if s.len() == 0 {
        Map::empty()
    } else {
        report_counts(s.drop_last()).insert(s.last().author@, s.last().lines as nat)
    }
}

/// Sum of the line counts of report entries.
pub open spec fn report_sum(s: Seq<ReportEntry>) -> nat
    decreases s.len(),
{
    if s.len() == 0 {
        0
    } else {
        (report_sum(s.drop_last()) + s.last().lines) as nat
    }
}

/// No author appears in two report entries.
pub open spec fn report_distinct(s: Seq<ReportEntry>) -> bool {
    forall|i: int, j: int| 0 <= i < j < s.len() ==> s[i].author@ != s[j].author@
}

/// Entries stand in descending order of truncated whole percent.
pub open spec fn sorted_desc(s: Seq<ReportEntry>) -> bool {
    forall|i: int, j: int| 0 <= i < j < s.len() ==> s[i].percent_whole >= s[j].percent_whole
}

/// An entry's derived fields agree with its count and the total.
pub open spec fn entry_wf(e: ReportEntry, total: nat) -> bool {
    &&& e.lines >= 1
    &&& e.percent_whole as nat == whole_percent(e.lines as nat, total)
    &&& e.percent_tenths as nat == tenths_percent(e.lines as nat, total)
}

impl Report {
    /// The sum of the entries' counts is the printed total; authors are
    /// unique; entries are sorted; every percentage is derived from its
    /// count and the total.
    pub open spec fn wf(&self) -> bool {
        &&& self.total as nat == report_sum(self.entries@)
        &&& report_distinct(self.entries@)
        &&& sorted_desc(self.entries@)
        &&& forall|i: int|
            0 <= i < self.entries@.len() ==> entry_wf(#[trigger] self.entries@[i], self.total as nat)
    }
}

/// Inserting an entry with a fresh author anywhere adds exactly that
/// author's count to the map.
pub proof fn lemma_report_counts_insert(s: Seq<ReportEntry>, idx: int, e: ReportEntry)
    requires
        0 <= idx <= s.len(),
        forall|j: int| 0 <= j < s.len() ==> s[j].author@ != e.author@,
    ensures
        report_counts(s.insert(idx, e)) == report_counts(s).insert(e.author@, e.lines as nat),
    decreases s.len(),
{
    let s2 = s.insert(idx, e);
    if idx == s.len() {
        assert(s2.drop_last() =~= s);
        assert(s2.last() == e);
    } else {
        assert(s2.last() == s.last());
        assert(s2.drop_last() =~= s.drop_last().insert(idx, e));
        lemma_report_counts_insert(s.drop_last(), idx, e);
        assert(report_counts(s2) =~= report_counts(s).insert(e.author@, e.lines as nat));
    }
}

/// Inserting an entry anywhere adds its count to the sum.
pub proof fn lemma_report_sum_insert(s: Seq<ReportEntry>, idx: int, e: ReportEntry)
    requires
        0 <= idx <= s.len(),
    ensures
        report_sum(s.insert(idx, e)) == report_sum(s) + e.lines,
    decreases s.len(),
{
    let s2 = s.insert(idx, e);
    if idx == s.len() {
        assert(s2.drop_last() =~= s);
        assert(s2.last() == e);
    } else {
        assert(s2.last() == s.last());
        assert(s2.drop_last() =~= s.drop_last().insert(idx, e));
        lemma_report_sum_insert(s.drop_last(), idx, e);
    }
}

/// Each entry's author stands in the counts map with its count.
pub proof fn lemma_report_counts_found(s: Seq<ReportEntry>, i: int)
    requires
        report_distinct(s),
        0 <= i < s.len(),
    ensures
        report_counts(s).contains_key(s[i].author@),
        report_counts(s)[s[i].author@] == s[i].lines as nat,
    decreases s.len(),
{
    if i == s.len() - 1 {
    } else {
        lemma_report_counts_found(s.drop_last(), i);
        assert(s.last().author@ != s[i].author@);
    }
}

/// An author in the counts map comes from some entry.
pub proof fn lemma_report_counts_member(s: Seq<ReportEntry>, a: Seq<char>)
    requires
        report_counts(s).contains_key(a),
    ensures
        exists|j: int| 0 <= j < s.len() && s[j].author@ == a,
    decreases s.len(),
{
    if s.len() > 0 {
        if s.last().author@ != a {
            lemma_report_counts_member(s.drop_last(), a);
            let j = choose|j: int| 0 <= j < s.drop_last().len() && s.drop_last()[j].author@ == a;
            assert(s[j].author@ == a);
        } else {
            assert(s[s.len() - 1].author@ == a);
        }
    }
}

/// An author that no entry carries is absent from the counts map.
pub proof fn lemma_report_counts_missing(s: Seq<ReportEntry>, a: Seq<char>)
    requires
        forall|j: int| 0 <= j < s.len() ==> s[j].author@ != a,
    ensures
        !report_counts(s).contains_key(a),
    decreases s.len(),
{
    if s.len() > 0 {
        lemma_report_counts_missing(s.drop_last(), a);
    }
}

/// Each entry's count is at most the sum.
pub proof fn lemma_report_sum_bound(s: Seq<ReportEntry>, i: int)
    requires
        0 <= i < s.len(),
    ensures
        s[i].lines as nat <= report_sum(s),
    decreases s.len(),
{
    if i == s.len() - 1 {
    } else {
        lemma_report_sum_bound(s.drop_last(), i);
    }
}

/// The sum of counts is a function of the counts map alone: any two
/// duplicate-free entry sequences with the same map have the same sum.
pub proof fn lemma_sum_from_counts(s1: Seq<ReportEntry>, s2: Seq<ReportEntry>)
    requires
        report_distinct(s1),
        report_distinct(s2),
        report_counts(s1) == report_counts(s2),
    ensures
        report_sum(s1) == report_sum(s2),
    decreases s1.len(),
{
    if s1.len() == 0 {
        if s2.len() > 0 {
            lemma_report_counts_found(s2, s2.len() - 1);
        }
    } else {
        let a = s1.last().author@;
        let c = s1.last().lines as nat;
        lemma_report_counts_found(s1, s1.len() - 1);
        lemma_report_counts_member(s2, a);
        let j = choose|j: int| 0 <= j < s2.len() && s2[j].author@ == a;
        lemma_report_counts_found(s2, j);
        let e2 = s2[j];
        let s2r = s2.remove(j);
        assert(s2 =~= s2r.insert(j, e2));
        assert(report_distinct(s2r)) by {
            assert(forall|p: int|
                0 <= p < s2r.len() ==> s2r[p] == (if p < j {
                    s2[p]
                } else {
                    s2[p + 1]
                }));
        }
        assert(forall|p: int| 0 <= p < s2r.len() ==> s2r[p].author@ != a) by {
            assert(forall|p: int|
                0 <= p < s2r.len() ==> s2r[p] == (if p < j {
                    s2[p]
                } else {
                    s2[p + 1]
                }));
        }
        lemma_report_counts_insert(s2r, j, e2);
        lemma_report_sum_insert(s2r, j, e2);
        let s1f = s1.drop_last();
        assert(forall|p: int| 0 <= p < s1f.len() ==> s1f[p].author@ != a);
        lemma_report_counts_missing(s1f, a);
        lemma_report_counts_missing(s2r, a);
        assert(report_counts(s1f) =~= report_counts(s2r)) by {
            let m1 = report_counts(s1f);
            let m2 = report_counts(s2r);
            let mi = report_counts(s1);
            assert(e2.lines as nat == c);
            assert(m1.insert(a, c) == mi);
            assert(m2.insert(a, c) == mi);
            assert(!m1.contains_key(a));
            assert(!m2.contains_key(a));
            assert(mi.remove(a) =~= m1);
            assert(mi.remove(a) =~= m2);
        }
        lemma_sum_from_counts(s1f, s2r);
        assert(e2.lines == s1.last().lines);
    }
}

/// Law: a run is reproducible.  Two well-formed reports whose counts
/// agree author for author show the same total; the counts themselves
/// agree by assumption, so only the order among entries with equal
/// truncated percent is left open.
pub proof fn lemma_round_trip(r1: Report, r2: Report)
    requires
        r1.wf(),
        r2.wf(),
        report_counts(r1.entries@) == report_counts(r2.entries@),
    ensures
        r1.total == r2.total,
{
    lemma_sum_from_counts(r1.entries@, r2.entries@);
}

/// Percentages of a count out of a positive total, as whole points
/// (truncated) and tenths (rounded half up).
fn percent_fields(lines: u64, total: u64) -> (p: (u32, u32))
    requires
        1 <= lines,
        lines <= total,
    ensures
        p.0 as nat == whole_percent(lines as nat, total as nat),
        p.1 as nat == tenths_percent(lines as nat, total as nat),
        p.0 <= 100,
        p.1 <= 1000,
{
    let l = lines as u128;
    let t = total as u128;
    proof {
        lemma_mul_inequality(lines as int, u64::MAX as int, 2000);
        lemma_mul_inequality(lines as int, u64::MAX as int, 100);
        assert((lines as int) * 100 < (total as int) * 101) by (nonlinear_arith)
            requires
                lines <= total,
                1 <= total,
        ;
        lemma_multiply_divide_lt((lines as int) * 100, total as int, 101);
        assert((lines as int) * 2000 + (total as int) < (2 * (total as int)) * 1001)
            by (nonlinear_arith)
            requires
                lines <= total,
                1 <= total,
        ;
        lemma_multiply_divide_lt((lines as int) * 2000 + (total as int), 2 * (total as int), 1001);
    }
    let pw = (l * 100 / t) as u32;
    let pt = ((l * 2000 + t) / (2 * t)) as u32;
    (pw, pt)
}

/// Build the report from a tally: one entry per author, percentages
/// derived from the total, entries sorted by descending whole percent
/// (insertion keeps earlier authors first among equals).  The sum of
/// the entries' counts equals the printed total; a tally with nothing
/// attributed yields an empty entry list and total zero.
pub fn build_report(t: &Tally) -> (r: Report)
    requires
        t.wf(),
    ensures
        r.wf(),
        r.total as nat == t.spec_total(),
        report_counts(r.entries@) == t@,
        r.total as nat == report_sum(r.entries@),
        t.spec_total() == 0 ==> r.entries@.len() == 0,
{
    proof {
        t.lemma_wf_entries();
    }
    let total = t.total();
    let n = t.author_count();
    let ghost tse = t.spec_entries();
    let mut entries: Vec<ReportEntry> = Vec::new();
    proof {
        assert(tse.take(0) =~= Seq::<AuthorCount>::empty());
        assert(report_counts(entries@) =~= counts_of(tse.take(0)));
    }
    let mut i: usize = 0;
    while i < n
        invariant
            t.wf(),
            tse == t.spec_entries(),
            n == tse.len(),
            total as nat == t.spec_total(),
            0 <= i <= n,
            report_counts(entries@) == counts_of(tse.take(i as int)),
            report_sum(entries@) == sum_lines(tse.take(i as int)),
            report_distinct(entries@),
            sorted_desc(entries@),
            forall|p: int|
                0 <= p < entries@.len() ==> entry_wf(#[trigger] entries@[p], total as nat),
        decreases n - i,
    {
        proof {
            t.lemma_wf_entries();
            lemma_sum_lines_bounds(tse, i as int);
        }
        let (author, lines) = t.entry_at(i);
        let p = percent_fields(lines, total);
        let e = ReportEntry { author, lines, percent_whole: p.0, percent_tenths: p.1 };
        // find the insertion point: after every at-least-as-large key
        let mut idx: usize = 0;
        while idx < entries.len() && entries[idx].percent_whole >= e.percent_whole
            invariant
                0 <= idx <= entries@.len(),
                forall|x: int| 0 <= x < idx ==> entries@[x].percent_whole >= e.percent_whole,
            decreases entries@.len() - idx,
        {
            idx = idx + 1;
        }
        proof {
            let s = entries@;
            // the new author is fresh: it is absent from the processed map
            assert(forall|j: int| 0 <= j < i ==> tse[j].author@ != e.author@);
            assert(forall|j: int|
                0 <= j < tse.take(i as int).len() ==> tse.take(i as int)[j].author@ != e.author@);
            lemma_counts_of_missing(tse.take(i as int), e.author@);
            assert forall|p2: int| 0 <= p2 < s.len() implies s[p2].author@ != e.author@ by {
                lemma_report_counts_found(s, p2);
            }
            lemma_report_counts_insert(s, idx as int, e);
            lemma_report_sum_insert(s, idx as int, e);
            // the step of the processed prefix
            assert(tse.take(i + 1).drop_last() =~= tse.take(i as int));
            assert(tse.take(i + 1).last() == tse[i as int]);
            // insertion keeps order and distinctness
            let s2 = s.insert(idx as int, e);
            assert(forall|x: int|
                0 <= x < s2.len() ==> s2[x] == (if x < idx {
                    s[x]
                } else if x == idx {
                    e
                } else {
                    s[x - 1]
                }));
            assert(sorted_desc(s2)) by {
                assert(idx < s.len() ==> s[idx as int].percent_whole < e.percent_whole);
            }
            assert(report_distinct(s2));
            assert(forall|x: int| 0 <= x < s2.len() ==> entry_wf(#[trigger] s2[x], total as nat));
        }
        entries.insert(idx, e);
        i = i + 1;
    }
    proof {
        t.lemma_wf_entries();
        assert(tse.take(n as int) =~= tse);
        if total == 0 && entries@.len() > 0 {
            lemma_report_sum_bound(entries@, 0);
        }
    }
    Report { total, entries }
}

} // verus!
