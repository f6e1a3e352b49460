//! Blame-output parsing: every line of the form `author <name>` is one
//! attribution event for `<name>`; every other line is ignored.  The
//! name may be empty and may hold arbitrary characters.

use vstd::prelude::*;
use crate::tally::{Tally, bump_all};

verus! {

/// Index of the first newline in `s`, or `s.len()` if there is none.
pub open spec fn first_nl(s: Seq<char>) -> nat
    decreases s.len(),
{
    if s.len() == 0 {
        0
    } else if s[0] == '\n' {
        0
    } else {
        (1 + first_nl(s.drop_first())) as nat
    }
}

/// A position with nothing but non-newlines before it, and a newline
/// at it unless it is the end, is `first_nl`.
pub proof fn lemma_first_nl_is(s: Seq<char>, k: int)
    requires
        0 <= k <= s.len(),
        forall|j: int| 0 <= j < k ==> s[j] != '\n',
        k < s.len() ==> s[k] == '\n',
    ensures
        first_nl(s) == k,
    decreases s.len(),
{
    if s.len() > 0 && s[0] != '\n' {
        lemma_first_nl_is(s.drop_first(), k - 1);
    }
}

/// The lines of a text: pieces between newlines.  A final piece without
/// a trailing newline counts; a trailing newline adds no empty line.
pub open spec fn spec_lines(s: Seq<char>) -> Seq<Seq<char>>
    decreases s.len(),
{
    if s.len() == 0 {
        Seq::empty()
    } else {
        let i = first_nl(s);
        if i < s.len() {
            seq![s.subrange(0, i as int)] + spec_lines(
                s.subrange(i as int + 1, s.len() as int),
            )
        } else {
            seq![s]
        }
    }
}

/// A line's trailing carriage return is no part of its content.
pub open spec fn strip_cr(l: Seq<char>) -> Seq<char> {
    if l.len() > 0 && l[l.len() - 1] == '\r' {
        l.drop_last()
    } else {
        l
    }
}

/// The literal pattern that starts an attribution line.
pub open spec fn author_prefix() -> Seq<char> {
    seq!['a', 'u', 't', 'h', 'o', 'r', ' ']
}

/// Whether a (carriage-return-stripped) line carries the pattern.
pub open spec fn has_author_prefix(t: Seq<char>) -> bool {
    t.len() >= 7 && t.subrange(0, 7) == author_prefix()
}

/// The author named by a line, if the line is an attribution line:
/// everything after `author `, the empty name included.
pub open spec fn line_author(l: Seq<char>) -> Option<Seq<char>> {
    let t = strip_cr(l);
    if has_author_prefix(t) {
        Some(t.subrange(7, t.len() as int))
    } else {
        None
    }
}

/// `line_author` as a function value, for use with `filter_map`.
pub open spec fn line_author_fn() -> spec_fn(Seq<char>) -> Option<Seq<char>> {
    |l: Seq<char>| line_author(l)
}

/// The attribution events of a blame text, in order: one per line that
/// carries the pattern.
pub open spec fn authors_in(s: Seq<char>) -> Seq<Seq<char>> {
    spec_lines(s).filter_map(line_author_fn())
}

/// Whether a line is an attribution line.
pub open spec fn is_author_line_fn() -> spec_fn(Seq<char>) -> bool {
    |l: Seq<char>| line_author(l) is Some
}

/// The author named by an attribution line.
pub open spec fn author_of_line_fn() -> spec_fn(Seq<char>) -> Seq<char> {
    |l: Seq<char>| line_author(l)->Some_0
}

/// Law: parsing yields exactly one attribution event per line of the
/// form `author <name>`, in order, whatever other lines stand between
/// them: the events of a text are precisely the authors of its
/// matching lines, and their number is the number of matching lines.
pub proof fn lemma_one_event_per_line(s: Seq<char>)
    ensures
        authors_in(s) == spec_lines(s).filter(is_author_line_fn()).map_values(author_of_line_fn()),
        authors_in(s).len() == spec_lines(s).filter(is_author_line_fn()).len(),
{
    lemma_filter_map_as_filter(spec_lines(s));
}

/// `filter_map` over lines is filtering the matching lines, then
/// taking each one's author.
pub proof fn lemma_filter_map_as_filter(ls: Seq<Seq<char>>)
    ensures
        ls.filter_map(line_author_fn()) == ls.filter(is_author_line_fn()).map_values(
            author_of_line_fn(),
        ),
        ls.filter_map(line_author_fn()).len() == ls.filter(is_author_line_fn()).len(),
    decreases ls.len(),
{
    reveal(Seq::filter);
    let f = line_author_fn();
    let pred = is_author_line_fn();
    let g = author_of_line_fn();
    if ls.len() == 0 {
        assert(ls.filter_map(f) =~= Seq::<Seq<char>>::empty());
        assert(ls.filter(pred).map_values(g) =~= Seq::<Seq<char>>::empty());
    } else {
        let rest = ls.drop_last();
        lemma_filter_map_as_filter(rest);
        match line_author(ls.last()) {
            Some(a) => {
                assert(ls.filter_map(f) == rest.filter_map(f) + seq![a]);
                assert(pred(ls.last()));
                assert(ls.filter(pred) == rest.filter(pred).push(ls.last()));
                assert(g(ls.last()) == a);
                assert(ls.filter(pred).map_values(g) =~= rest.filter(pred).map_values(g) + seq![
                    a,
                ]);
            },
            None => {
                assert(ls.filter_map(f) == rest.filter_map(f));
                assert(!pred(ls.last()));
                assert(ls.filter(pred) == rest.filter(pred));
            },
        }
    }
}

/// The counts that one full run over a sequence of blame texts yields,
/// starting from an empty tally: a run's outcome is a function of the
/// texts alone, so two runs over the same texts agree.
pub open spec fn run_counts(texts: Seq<Seq<char>>) -> Map<Seq<char>, nat>
    decreases texts.len(),
{
    if texts.len() == 0 {
        Map::empty()
    } else {
        bump_all(run_counts(texts.drop_last()), authors_in(texts.last()))
    }
}

/// Applying events one after a bunch is applying the bunch, then the one.
pub proof fn lemma_bump_all_snoc(m: Map<Seq<char>, nat>, s: Seq<Seq<char>>, a: Seq<char>)
    ensures
        bump_all(m, s + seq![a]) == crate::tally::bump(bump_all(m, s), a),
    decreases s.len(),
{
    let sa = s + seq![a];
    if s.len() == 0 {
        assert(sa[0] == a);
        assert(sa.drop_first() =~= Seq::<Seq<char>>::empty());
        assert(bump_all(m, sa) == bump_all(crate::tally::bump(m, a), sa.drop_first()));
        assert(bump_all(crate::tally::bump(m, a), sa.drop_first()) == crate::tally::bump(m, a));
        assert(bump_all(m, s) == m);
    } else {
        assert(sa[0] == s[0]);
        assert(sa.drop_first() =~= s.drop_first() + seq![a]);
        assert(bump_all(m, sa) == bump_all(crate::tally::bump(m, s[0]), sa.drop_first()));
        lemma_bump_all_snoc(crate::tally::bump(m, s[0]), s.drop_first(), a);
        assert(bump_all(m, s) == bump_all(crate::tally::bump(m, s[0]), s.drop_first()));
    }
}

/// The expected character at position `k` of the attribution pattern.
fn prefix_char(k: usize) -> (c: char)
    requires
        k < 7,
    ensures
        c == author_prefix()[k as int],
{
    if k == 0 {
        'a'
    } else if k == 1 {
        'u'
    } else if k == 2 {
        't'
    } else if k == 3 {
        'h'
    } else if k == 4 {
        'o'
    } else if k == 5 {
        'r'
    } else {
        ' '
    }
}

/// Whether `s[start..end]` begins with the attribution pattern.
fn span_has_author_prefix(s: &str, start: usize, end: usize) -> (r: bool)
    requires
        start <= end <= s@.len(),
    ensures
        r == has_author_prefix(s@.subrange(start as int, end as int)),
{
    let ghost t = s@.subrange(start as int, end as int);
    if end - start < 7 {
        return false;
    }
    let mut k: usize = 0;
    while k < 7
        invariant
            start <= end <= s@.len(),
            end - start >= 7,
            t == s@.subrange(start as int, end as int),
            0 <= k <= 7,
            forall|x: int| 0 <= x < k ==> t[x] == author_prefix()[x],
        decreases 7 - k,
    {
        let c = s.get_char(start + k);
        if c != prefix_char(k) {
            proof {
                assert(t[k as int] != author_prefix()[k as int]);
                assert(!has_author_prefix(t)) by {
                    if has_author_prefix(t) {
                        assert(t.subrange(0, 7)[k as int] == author_prefix()[k as int]);
                    }
                }
            }
            return false;
        }
        k = k + 1;
    }
    proof {
        assert(t.subrange(0, 7) =~= author_prefix());
    }
    true
}

/// Parse a whole blame text into the tally: one `record` per line of
/// the form `author <name>`, in text order.
pub fn parse_blame_output(blame_output: &str, author_lines: &mut Tally)
    requires
        old(author_lines).wf(),
        old(author_lines).spec_total() + blame_output@.len() <= u64::MAX,
    ensures
        final(author_lines).wf(),
        final(author_lines)@ == bump_all(old(author_lines)@, authors_in(blame_output@)),
        final(author_lines).spec_total() == old(author_lines).spec_total() + authors_in(
            blame_output@,
        ).len(),
{
    let s = blame_output;
    let n = s.unicode_len();
    let ghost lines = spec_lines(s@);
    let ghost f = line_author_fn();
    let ghost m0 = old(author_lines)@;
    let ghost total0 = old(author_lines).spec_total();
    let mut pos: usize = 0;
    let ghost k: int = 0;
    proof {
        assert(lines.take(0) =~= Seq::<Seq<char>>::empty());
        assert(lines.skip(0) =~= lines);
        assert(s@.subrange(0, n as int) =~= s@);
    }
    while pos < n
        invariant
            n == s@.len(),
            0 <= pos <= n,
            author_lines.wf(),
            lines == spec_lines(s@),
            f == line_author_fn(),
            0 <= k <= lines.len(),
            lines.skip(k) == spec_lines(s@.subrange(pos as int, n as int)),
            author_lines@ == bump_all(m0, lines.take(k).filter_map(f)),
            author_lines.spec_total() == total0 + lines.take(k).filter_map(f).len(),
            lines.take(k).filter_map(f).len() <= pos,
            total0 + n <= u64::MAX,
        decreases n - pos,
    {
        let ghost suffix = s@.subrange(pos as int, n as int);
        // find the end of the current line
        let mut j: usize = pos;
        while j < n && s.get_char(j) != '\n'
            invariant
                n == s@.len(),
                pos <= j <= n,
                forall|x: int| pos <= x < j ==> s@[x] != '\n',
            decreases n - j,
        {
            j = j + 1;
        }
        proof {
            assert(j == n || s@[j as int] == '\n');
            assert(forall|x: int|
                0 <= x < j - pos ==> suffix[x] == s@[pos + x] && s@[pos + x] != '\n');
            lemma_first_nl_is(suffix, j - pos);
        }
        let ghost line0 = spec_lines(suffix)[0];
        proof {
            assert(suffix.len() > 0);
            if (j as int) - (pos as int) < suffix.len() {
                assert(spec_lines(suffix) == seq![suffix.subrange(0, j - pos)] + spec_lines(
                    suffix.subrange(j - pos + 1, suffix.len() as int),
                ));
            } else {
                assert(spec_lines(suffix) == seq![suffix]);
            }
            assert(line0 =~= s@.subrange(pos as int, j as int));
        }
        // strip one trailing carriage return from the line's content
        let line_end: usize = if j > pos && s.get_char(j - 1) == '\r' {
            j - 1
        } else {
            j
        };
        proof {
            assert(strip_cr(line0) =~= s@.subrange(pos as int, line_end as int));
        }
        // one attribution event if the line carries the pattern
        if span_has_author_prefix(s, pos, line_end) {
            let name = s.substring_char(pos + 7, line_end).to_owned();
            proof {
                let t = strip_cr(line0);
                assert(name@ =~= t.subrange(7, t.len() as int));
                assert(line_author(line0) == Some(name@));
                assert(author_lines.spec_total() < u64::MAX);
            }
            author_lines.record(name);
        } else {
            proof {
                assert(line_author(line0) is None);
            }
        }
        // step past the line and its newline, if any
        let newpos: usize = if j < n {
            j + 1
        } else {
            n
        };
        proof {
            let rest = s@.subrange(newpos as int, n as int);
            if j < n {
                assert(suffix.subrange(j - pos + 1, suffix.len() as int) =~= rest);
                assert(spec_lines(suffix) == seq![line0] + spec_lines(rest));
            } else {
                assert(spec_lines(suffix) == seq![line0]);
                assert(rest =~= Seq::<char>::empty());
                assert(spec_lines(suffix) =~= seq![line0] + spec_lines(rest));
            }
            // the current line is lines[k]
            assert(lines.skip(k)[0] == line0);
            assert(0 <= k < lines.len()) by {
                assert(lines.skip(k).len() > 0);
            }
            assert(lines[k] == line0);
            assert(lines.skip(k + 1) =~= spec_lines(rest)) by {
                assert(lines.skip(k).drop_first() =~= lines.skip(k + 1));
                assert((seq![line0] + spec_lines(rest)).drop_first() =~= spec_lines(rest));
            }
            // one unfolding of the processed-events sequence
            lines.lemma_filter_map_take_succ(f, k);
            match line_author(line0) {
                Some(a) => {
                    lemma_bump_all_snoc(m0, lines.take(k).filter_map(f), a);
                    assert(lines.take(k + 1).filter_map(f) =~= lines.take(k).filter_map(f)
                        + seq![a]);
                },
                None => {
                    assert(lines.take(k + 1).filter_map(f) =~= lines.take(k).filter_map(f));
                },
            }
        }
        pos = newpos;
        proof {
            k = k + 1;
        }
    }
    proof {
        assert(s@.subrange(pos as int, n as int) =~= Seq::<char>::empty());
        assert(lines.skip(k).len() == 0);
        assert(k == lines.len());
        assert(lines.take(k) =~= lines);
    }
}

} // verus!
