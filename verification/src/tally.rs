//! The per-author tally: a mapping from author name to an accumulated
//! line count, updated by one attribution event at a time.

use vstd::prelude::*;

verus! {

/// One author together with the number of lines attributed so far.
pub struct AuthorCount {
    pub author: String,
    pub lines: u64,
}

/// The counts held by a sequence of tally entries, as a map from author
/// name to line count.  Later entries win, but a well-formed tally has
/// distinct authors, so the order never matters there.
pub open spec fn counts_of(s: Seq<AuthorCount>) -> Map<Seq<char>, nat>
    decreases s.len(),
{
    if s.len() == 0 {
        Map::empty()
    } else {
        counts_of(s.drop_last()).insert(s.last().author@, s.last().lines as nat)
    }
}

/// Sum of the line counts of a sequence of tally entries.
pub open spec fn sum_lines(s: Seq<AuthorCount>) -> nat
    decreases s.len(),
{
    if s.len() == 0 {
        0
    } else {
        (sum_lines(s.drop_last()) + s.last().lines) as nat
    }
}

/// No author name occurs twice.
pub open spec fn distinct_authors(s: Seq<AuthorCount>) -> bool {
    forall|i: int, j: int| 0 <= i < j < s.len() ==> s[i].author@ != s[j].author@
}

/// One attribution event: the author's count rises by one, a new author
/// enters with count one.
pub open spec fn bump(m: Map<Seq<char>, nat>, a: Seq<char>) -> Map<Seq<char>, nat> {
    if m.contains_key(a) {
        m.insert(a, m[a] + 1)
    } else {
        m.insert(a, 1)
    }
}

/// A whole sequence of attribution events applied in order.
pub open spec fn bump_all(m: Map<Seq<char>, nat>, authors: Seq<Seq<char>>) -> Map<Seq<char>, nat>
    decreases authors.len(),
{
    if authors.len() == 0 {
        m
    } else {
        bump_all(bump(m, authors[0]), authors.drop_first())
    }
}

/// Index of the entry carrying `author`, if any; the search also shows
/// that no earlier entry carries it.
fn find_author(v: &Vec<AuthorCount>, author: &String) -> (r: Option<usize>)
    ensures
        match r {
            Some(i) => i < v@.len() && v@[i as int].author@ == author@,
            None => forall|j: int| 0 <= j < v@.len() ==> v@[j].author@ != author@,
        },
{
    let n = v.len();
    let mut i: usize = 0;
    while i < n
        invariant
            n == v@.len(),
            0 <= i <= n,
            forall|j: int| 0 <= j < i ==> v@[j].author@ != author@,
        decreases n - i,
    {
        if v[i].author == *author {
            return Some(i);
        }
        i = i + 1;
    }
    None
}

/// Accumulator for attribution events across all processed files.
pub struct Tally {
    entries: Vec<AuthorCount>,
    total: u64,
}

impl Tally {
    /// The counts as a map from author name to line count.
    pub closed spec fn view(&self) -> Map<Seq<char>, nat> {
        counts_of(self.entries@)
    }

    /// Total number of attribution events recorded.
    pub closed spec fn spec_total(&self) -> nat {
        self.total as nat
    }

    /// The entries as (author, count) pairs, in insertion order.
    pub closed spec fn spec_entries(&self) -> Seq<AuthorCount> {
        self.entries@
    }

    /// Internal consistency: distinct authors, no zero counts, and the
    /// running total is the sum of all counts.
    pub closed spec fn wf(&self) -> bool {
        &&& distinct_authors(self.entries@)
        &&& forall|i: int| 0 <= i < self.entries@.len() ==> self.entries@[i].lines >= 1
        &&& self.total as nat == sum_lines(self.entries@)
    }

    pub fn new() -> (t: Tally)
        ensures
            t.wf(),
            t@ == Map::<Seq<char>, nat>::empty(),
            t.spec_total() == 0,
            t.spec_entries() == Seq::<AuthorCount>::empty(),
    {
        let t = Tally { entries: Vec::new(), total: 0 };
        proof {
            assert(counts_of(t.entries@) =~= Map::<Seq<char>, nat>::empty());
        }
        t
    }

    /// Record one attribution event for `author`.
    pub fn record(&mut self, author: String)
        requires
            old(self).wf(),
            old(self).spec_total() < u64::MAX,
        ensures
            final(self).wf(),
            final(self)@ == bump(old(self)@, author@),
            final(self).spec_total() == old(self).spec_total() + 1,
    {
        let found = find_author(&self.entries, &author);
        match found {
            Some(i) => {
                proof {
                    lemma_sum_lines_bounds(self.entries@, i as int);
                }
                let c = self.entries[i].lines;
                let ghost s_old = self.entries@;
                let e = AuthorCount { author, lines: c + 1 };
                self.entries[i] = e;
                self.total = self.total + 1;
                proof {
                    assert(self.entries@ =~= s_old.update(i as int, e));
                    lemma_counts_of_update(s_old, i as int, e);
                    lemma_sum_lines_update(s_old, i as int, e);
                }
            },
            None => {
                proof {
                    lemma_counts_of_missing(self.entries@, author@);
                }
                self.entries.push(AuthorCount { author, lines: 1 });
                self.total = self.total + 1;
                proof {
                    assert(self.entries@.drop_last() =~= old(self).spec_entries());
                }
            },
        }
    }

    /// Total number of attribution events recorded.
    pub fn total(&self) -> (n: u64)
        ensures
            n as nat == self.spec_total(),
    {
        self.total
    }

    /// Number of distinct authors in the tally.
    pub fn author_count(&self) -> (n: usize)
        ensures
            n == self.spec_entries().len(),
    {
        self.entries.len()
    }

    /// What well-formedness gives callers about the entry view.
    pub proof fn lemma_wf_entries(&self)
        requires
            self.wf(),
        ensures
            distinct_authors(self.spec_entries()),
            forall|i: int| 0 <= i < self.spec_entries().len() ==> self.spec_entries()[i].lines >= 1,
            self.spec_total() == sum_lines(self.spec_entries()),
            self@ == counts_of(self.spec_entries()),
    {
    }

    /// One entry, in insertion order: the author's name and line count.
    pub fn entry_at(&self, i: usize) -> (e: (String, u64))
        requires
            i < self.spec_entries().len(),
        ensures
            e.0@ == self.spec_entries()[i as int].author@,
            e.1 == self.spec_entries()[i as int].lines,
    {
        let a = self.entries[i].author.clone();
        (a, self.entries[i].lines)
    }
}

/// Replacing entry `i` by the same author with a count one higher turns
/// the counts map into `bump` at that author.
pub proof fn lemma_counts_of_update(s: Seq<AuthorCount>, i: int, e: AuthorCount)
    requires
        distinct_authors(s),
        0 <= i < s.len(),
        e.author@ == s[i].author@,
        e.lines == s[i].lines + 1,
    ensures
        counts_of(s.update(i, e)) == bump(counts_of(s), e.author@),
        distinct_authors(s.update(i, e)),
    decreases s.len(),
{
    lemma_counts_of_found(s, i);
    let s2 = s.update(i, e);
    let a = e.author@;
    assert forall|p: int, q: int| 0 <= p < q < s2.len() implies s2[p].author@ != s2[q].author@ by {
        assert(s2[p].author@ == s[p].author@);
        assert(s2[q].author@ == s[q].author@);
    }
    if i == s.len() - 1 {
        assert(s2.drop_last() =~= s.drop_last());
        assert(s2.last() == e);
        lemma_counts_of_found(s, i);
        assert(counts_of(s2) =~= bump(counts_of(s), a));
    } else {
        assert(s2.drop_last() =~= s.drop_last().update(i, e));
        assert(s2.last() == s.last());
        lemma_counts_of_update(s.drop_last(), i, e);
        assert(s.last().author@ != a);
        lemma_counts_of_found(s.drop_last(), i);
        assert(counts_of(s2) =~= bump(counts_of(s), a));
    }
}

/// In a duplicate-free tally, entry `i` gives the map's value at its author.
pub proof fn lemma_counts_of_found(s: Seq<AuthorCount>, i: int)
    requires
        distinct_authors(s),
        0 <= i < s.len(),
    ensures
        counts_of(s).contains_key(s[i].author@),
        counts_of(s)[s[i].author@] == s[i].lines as nat,
    decreases s.len(),
{
    if i == s.len() - 1 {
    } else {
        lemma_counts_of_found(s.drop_last(), i);
        assert(s.last().author@ != s[i].author@);
    }
}

/// An author that no entry carries is absent from the counts map.
pub proof fn lemma_counts_of_missing(s: Seq<AuthorCount>, a: Seq<char>)
    requires
        forall|j: int| 0 <= j < s.len() ==> s[j].author@ != a,
    ensures
        !counts_of(s).contains_key(a),
    decreases s.len(),
{
    if s.len() > 0 {
        lemma_counts_of_missing(s.drop_last(), a);
    }
}

/// Raising one entry's count by one raises the sum by one.
pub proof fn lemma_sum_lines_update(s: Seq<AuthorCount>, i: int, e: AuthorCount)
    requires
        0 <= i < s.len(),
        e.lines == s[i].lines + 1,
    ensures
        sum_lines(s.update(i, e)) == sum_lines(s) + 1,
    decreases s.len(),
{
    let s2 = s.update(i, e);
    if i == s.len() - 1 {
        assert(s2.drop_last() =~= s.drop_last());
    } else {
        assert(s2.drop_last() =~= s.drop_last().update(i, e));
        assert(s2.last() == s.last());
        lemma_sum_lines_update(s.drop_last(), i, e);
    }
}

/// Each entry's count is at most the sum of all counts.
pub proof fn lemma_sum_lines_bounds(s: Seq<AuthorCount>, i: int)
    requires
        0 <= i < s.len(),
    ensures
        s[i].lines as nat <= sum_lines(s),
    decreases s.len(),
{
    if i == s.len() - 1 {
    } else {
        lemma_sum_lines_bounds(s.drop_last(), i);
    }
}

} // verus!
