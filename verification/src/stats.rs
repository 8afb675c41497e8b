//! Accumulates typing events into per-Exercise and per-Session statistics.
//!
//! The collector is a pure fold: it keeps no in-progress Exercise state and
//! owns no clock. Each call to [`StatsCollector::finish_exercise`] takes the
//! complete error list of a finished Exercise, folds it into the running
//! session totals, and returns the per-Exercise counts for the stats screen.
//! Speeds and accuracy are ratios of these counts, computed where they are
//! displayed.

use std::time::Duration;
use vstd::prelude::*;

use crate::clock::{
    add_durations, checked_add_durations, duration_nanos, max_duration_nanos, zero_duration,
};
use crate::engine::ErrorEvent;

verus! {

/// How many of an Exercise's most-mistyped characters its stats list.
pub const TOP_MISTAKES_LIMIT: usize = 3;

/// Number of errors in `errors` whose expected character is `c`.
pub open spec fn mistakes_of(errors: Seq<ErrorEvent>, c: char) -> nat
    decreases errors.len(),
{
    if errors.len() == 0 {
        0
    } else {
        mistakes_of(errors.drop_last(), c) + if errors.last().expected == c {
            1nat
        } else {
            0nat
        }
    }
}

/// Whether `a` comes before `b` in the mistake ranking: more mistakes first,
/// and on equal counts the smaller character first.
pub open spec fn ranks_before(a: (char, usize), b: (char, usize)) -> bool {
    a.1 > b.1 || (a.1 == b.1 && a.0 < b.0)
}

/// Whether `c` is among the characters listed in `r`.
pub open spec fn lists(r: Seq<(char, usize)>, c: char) -> bool {
    exists|i: int| 0 <= i < r.len() && #[trigger] r[i].0 == c
}

/// `r` is the top-`limit` mistake list of `errors`: each mistyped expected
/// character with its count, in ranking order, at most `limit` of them, and
/// a character is left out only when the list is full of characters that
/// rank before it.
pub open spec fn is_top_mistakes(errors: Seq<ErrorEvent>, limit: nat, r: Seq<(char, usize)>) -> bool {
    &&& r.len() <= limit
    &&& forall|i: int|
        0 <= i < r.len() ==> #[trigger] r[i].1 == mistakes_of(errors, r[i].0) && r[i].1 > 0
    &&& forall|i: int, j: int| 0 <= i < j < r.len() ==> ranks_before(#[trigger] r[i], #[trigger] r[j])
    &&& forall|c: char|
        #![trigger mistakes_of(errors, c)]
        mistakes_of(errors, c) > 0 && !lists(r, c) ==> r.len() == limit && forall|i: int|
            0 <= i < r.len() ==> ranks_before(#[trigger] r[i], (c, mistakes_of(errors, c) as usize))
}

proof fn lemma_same_prefix(errors: Seq<ErrorEvent>, limit: nat, r1: Seq<(char, usize)>, r2: Seq<(char, usize)>, n: int)
    requires
        is_top_mistakes(errors, limit, r1),
        is_top_mistakes(errors, limit, r2),
        0 <= n <= r1.len(),
        n <= r2.len(),
    ensures
        forall|j: int| 0 <= j < n ==> r1[j] == r2[j],
    decreases n,
{
    if n > 0 {
        lemma_same_prefix(errors, limit, r1, r2, n - 1);
        let i = n - 1;
        let x = r1[i];
        let y = r2[i];
        assert(x.1 == mistakes_of(errors, x.0) && x.1 > 0);
        assert(y.1 == mistakes_of(errors, y.0) && y.1 > 0);
        if x != y {
            assert(x.0 != y.0);
            if ranks_before(x, y) {
                lemma_first_unlisted(errors, limit, r1, r2, i);
            } else {
                assert(ranks_before(y, x));
                lemma_first_unlisted(errors, limit, r2, r1, i);
            }
        }
    }
}

proof fn lemma_first_unlisted(errors: Seq<ErrorEvent>, limit: nat, r1: Seq<(char, usize)>, r2: Seq<(char, usize)>, i: int)
    requires
        is_top_mistakes(errors, limit, r1),
        is_top_mistakes(errors, limit, r2),
        0 <= i < r1.len(),
        i < r2.len(),
        forall|j: int| 0 <= j < i ==> r1[j] == r2[j],
    ensures
        !ranks_before(r1[i], r2[i]),
{
    let x = r1[i];
    let y = r2[i];
    assert(x.1 == mistakes_of(errors, x.0) && x.1 > 0);
    if ranks_before(x, y) {
        if lists(r2, x.0) {
            let j = choose|j: int| 0 <= j < r2.len() && #[trigger] r2[j].0 == x.0;
            assert(r2[j].1 == mistakes_of(errors, r2[j].0));
            assert(r2[j] == x);
            if j > i {
                assert(ranks_before(r2[i], r2[j]));
            } else if j < i {
                assert(r1[j] == x);
                assert(ranks_before(r1[j], r1[i]));
            }
        } else {
            assert(mistakes_of(errors, x.0) > 0);
            assert(ranks_before(r2[i], (x.0, mistakes_of(errors, x.0) as usize)));
        }
    }
}

/// The mistake list is determined by the errors and the limit: two lists
/// that both meet [`is_top_mistakes`] are the same, whatever order the
/// errors came in (ties are broken by character).
pub proof fn law_top_mistakes_are_unique(
    errors: Seq<ErrorEvent>,
    limit: nat,
    r1: Seq<(char, usize)>,
    r2: Seq<(char, usize)>,
)
    requires
        is_top_mistakes(errors, limit, r1),
        is_top_mistakes(errors, limit, r2),
    ensures
        r1 == r2,
{
    let n = if r1.len() <= r2.len() {
        r1.len()
    } else {
        r2.len()
    };
    lemma_same_prefix(errors, limit, r1, r2, n as int);
    if r1.len() < r2.len() {
        lemma_shorter_is_full(errors, limit, r1, r2);
    } else if r2.len() < r1.len() {
        lemma_shorter_is_full(errors, limit, r2, r1);
    }
    assert(r1 =~= r2);
}

proof fn lemma_shorter_is_full(errors: Seq<ErrorEvent>, limit: nat, r1: Seq<(char, usize)>, r2: Seq<(char, usize)>)
    requires
        is_top_mistakes(errors, limit, r1),
        is_top_mistakes(errors, limit, r2),
        r1.len() <= r2.len(),
        forall|j: int| 0 <= j < r1.len() ==> r1[j] == r2[j],
    ensures
        r1.len() == r2.len(),
{
    if r1.len() < r2.len() {
        let k = r1.len() as int;
        let y = r2[k];
        assert(y.1 == mistakes_of(errors, y.0) && y.1 > 0);
        if lists(r1, y.0) {
            let j = choose|j: int| 0 <= j < r1.len() && #[trigger] r1[j].0 == y.0;
            assert(r1[j].1 == mistakes_of(errors, r1[j].0));
            assert(r2[j] == r1[j]);
            assert(r2[j] == y);
            assert(ranks_before(r2[j], r2[k]));
        } else {
            assert(mistakes_of(errors, y.0) > 0);
            assert(r1.len() == limit);
        }
    }
}

/// A collector's count for any character never exceeds the session's
/// error total.
pub proof fn law_counts_within_error_total(c: StatsCollector, ch: char)
    requires
        c.wf(),
    ensures
        c.count_of(ch) <= c.totals().total_errors,
{
}

pub proof fn lemma_mistakes_bounded(errors: Seq<ErrorEvent>, c: char)
    ensures
        mistakes_of(errors, c) <= errors.len(),
    decreases errors.len(),
{
    if errors.len() > 0 {
        lemma_mistakes_bounded(errors.drop_last(), c);
    }
}

// -- Per-character error counts -------------------------------------------------

/// Sum of the counts of the entries of `e` whose character is `c`.
spec fn tally_of(e: Seq<(char, usize)>, c: char) -> nat
    decreases e.len(),
{
    if e.len() == 0 {
        0
    } else {
        tally_of(e.drop_last(), c) + if e.last().0 == c {
            e.last().1 as nat
        } else {
            0nat
        }
    }
}

spec fn entries_wf(e: Seq<(char, usize)>) -> bool {
    &&& forall|i: int, j: int| 0 <= i < j < e.len() ==> #[trigger] e[i].0 != #[trigger] e[j].0
    &&& forall|i: int| 0 <= i < e.len() ==> #[trigger] e[i].1 > 0
}

proof fn lemma_tally_absent(e: Seq<(char, usize)>, c: char)
    requires
        forall|i: int| 0 <= i < e.len() ==> #[trigger] e[i].0 != c,
    ensures
        tally_of(e, c) == 0,
    decreases e.len(),
{
    if e.len() > 0 {
        lemma_tally_absent(e.drop_last(), c);
    }
}

proof fn lemma_tally_unique(e: Seq<(char, usize)>, i: int)
    requires
        entries_wf(e),
        0 <= i < e.len(),
    ensures
        tally_of(e, e[i].0) == e[i].1,
    decreases e.len(),
{
    if i == e.len() - 1 {
        lemma_tally_absent(e.drop_last(), e[i].0);
    } else {
        lemma_tally_unique(e.drop_last(), i);
    }
}

proof fn lemma_tally_update(e: Seq<(char, usize)>, i: int, n: usize, d: char)
    requires
        0 <= i < e.len(),
    ensures
        tally_of(e.update(i, (e[i].0, n)), d) == tally_of(e, d) - (if e[i].0 == d {
            e[i].1 as int
        } else {
            0int
        }) + (if e[i].0 == d {
            n as int
        } else {
            0int
        }),
    decreases e.len(),
{
    let u = e.update(i, (e[i].0, n));
    if i == e.len() - 1 {
        assert(u.drop_last() =~= e.drop_last());
    } else {
        assert(u.drop_last() =~= e.drop_last().update(i, (e[i].0, n)));
        lemma_tally_update(e.drop_last(), i, n, d);
    }
}

/// Cumulative count of mistakes per expected character, one entry per
/// character. Kept as a vector of entries: vstd's `HashMap` contracts hold
/// only for key types with a hash model, and `char` has none.
pub struct ErrorCounts {
    entries: Vec<(char, usize)>,
}

impl View for ErrorCounts {
    type V = Map<char, nat>;

    closed spec fn view(&self) -> Map<char, nat> {
        Map::new(
            |c: char| tally_of(self.entries@, c) > 0,
            |c: char| tally_of(self.entries@, c),
        )
    }
}

impl ErrorCounts {
    /// The invariant: one entry per character, each with a positive count.
    pub closed spec fn wf(&self) -> bool {
        entries_wf(self.entries@)
    }

    /// The count recorded for `c` (0 when none).
    pub closed spec fn count(&self, c: char) -> nat {
        tally_of(self.entries@, c)
    }

    /// No counts yet.
    pub fn new() -> (r: Self)
        ensures
            r.wf(),
            forall|c: char| r.count(c) == 0,
            r@ == Map::<char, nat>::empty(),
    {
        let r = ErrorCounts { entries: Vec::new() };
        proof {
            assert(r@ =~= Map::<char, nat>::empty());
        }
        r
    }

    /// Count one more mistake on `c`.
    fn record(&mut self, c: char)
        requires
            old(self).wf(),
            old(self).count(c) < usize::MAX,
        ensures
            final(self).wf(),
            forall|d: char|
                #[trigger] final(self).count(d) == old(self).count(d) + if d == c {
                    1nat
                } else {
                    0nat
                },
    {
        let mut i: usize = 0;
        while i < self.entries.len()
            invariant
                i <= self.entries@.len(),
                self.entries@ == old(self).entries@,
                entries_wf(self.entries@),
                tally_of(self.entries@, c) < usize::MAX,
                forall|j: int| 0 <= j < i ==> #[trigger] self.entries@[j].0 != c,
            decreases self.entries@.len() - i,
        {
            if self.entries[i].0 == c {
                let n = self.entries[i].1;
                proof {
                    lemma_tally_unique(self.entries@, i as int);
                }
                let ghost before = self.entries@;
                self.entries.set(i, (c, n + 1));
                proof {
                    assert forall|d: char| #[trigger] tally_of(self.entries@, d) == tally_of(before, d)
                        + if d == c {
                        1nat
                    } else {
                        0nat
                    } by {
                        lemma_tally_update(before, i as int, (n + 1) as usize, d);
                    }
                    assert forall|j: int, k: int| 0 <= j < k < self.entries@.len() implies #[trigger] self.entries@[j].0
                        != #[trigger] self.entries@[k].0 by {
                        assert(before[j].0 != before[k].0);
                    }
                }
                return;
            }
            i = i + 1;
        }
        proof {
            lemma_tally_absent(self.entries@, c);
        }
        let ghost before = self.entries@;
        self.entries.push((c, 1));
        proof {
            assert(self.entries@.drop_last() =~= before);
        }
    }

    /// The count for `c`, or `None` when `c` was never mistyped.
    pub fn get(&self, c: char) -> (r: Option<usize>)
        requires
            self.wf(),
        ensures
            match r {
                Some(n) => self@.contains_key(c) && self@[c] == n,
                None => !self@.contains_key(c),
            },
    {
        let mut i: usize = 0;
        while i < self.entries.len()
            invariant
                i <= self.entries@.len(),
                entries_wf(self.entries@),
                forall|j: int| 0 <= j < i ==> #[trigger] self.entries@[j].0 != c,
            decreases self.entries@.len() - i,
        {
            if self.entries[i].0 == c {
                proof {
                    lemma_tally_unique(self.entries@, i as int);
                }
                return Some(self.entries[i].1);
            }
            i = i + 1;
        }
        proof {
            lemma_tally_absent(self.entries@, c);
        }
        None
    }

    /// Whether no mistake has been counted.
    pub fn is_empty(&self) -> (r: bool)
        requires
            self.wf(),
        ensures
            r == (self@ == Map::<char, nat>::empty()),
    {
        if self.entries.len() == 0 {
            proof {
                assert(self@ =~= Map::<char, nat>::empty());
            }
            true
        } else {
            proof {
                lemma_tally_unique(self.entries@, 0);
                assert(self@.contains_key(self.entries@[0].0));
            }
            false
        }
    }
}

/// Tally the expected characters of `errors`.
fn count_mistakes(errors: &[ErrorEvent]) -> (r: ErrorCounts)
    ensures
        r.wf(),
        forall|c: char| #[trigger] r.count(c) == mistakes_of(errors@, c),
{
    let mut counts = ErrorCounts::new();
    let mut i: usize = 0;
    while i < errors.len()
        invariant
            i <= errors@.len(),
            counts.wf(),
            forall|c: char| #[trigger] counts.count(c) == mistakes_of(errors@.take(i as int), c),
        decreases errors@.len() - i,
    {
        let c = errors[i].expected;
        proof {
            lemma_mistakes_bounded(errors@.take(i as int), c);
        }
        counts.record(c);
        proof {
            assert(errors@.take(i + 1).drop_last() =~= errors@.take(i as int));
        }
        i = i + 1;
    }
    proof {
        assert(errors@.take(errors@.len() as int) =~= errors@);
    }
    counts
}

/// Whether some entry of `r` lists `c`.
fn listed(r: &Vec<(char, usize)>, c: char) -> (b: bool)
    ensures
        b == lists(r@, c),
{
    let mut i: usize = 0;
    while i < r.len()
        invariant
            i <= r@.len(),
            forall|j: int| 0 <= j < i ==> #[trigger] r@[j].0 != c,
        decreases r@.len() - i,
    {
        if r[i].0 == c {
            return true;
        }
        i = i + 1;
    }
    false
}

/// The `limit` most-mistyped expected characters of `errors`, by count
/// descending and, on equal counts, by character ascending.
pub fn top_mistakes(errors: &[ErrorEvent], limit: usize) -> (r: Vec<(char, usize)>)
    ensures
        is_top_mistakes(errors@, limit as nat, r@),
{
    let counts = count_mistakes(errors);
    let e = &counts.entries;
    let ghost es = e@;
    proof {
        assert forall|c: char| mistakes_of(errors@, c) > 0 implies exists|k: int|
            0 <= k < es.len() && #[trigger] es[k].0 == c by {
            assert(counts.count(c) == mistakes_of(errors@, c));
            if forall|k: int| 0 <= k < es.len() ==> #[trigger] es[k].0 != c {
                lemma_tally_absent(es, c);
            }
        }
        assert forall|k: int| 0 <= k < es.len() implies #[trigger] es[k].1 == mistakes_of(
            errors@,
            es[k].0,
        ) by {
            lemma_tally_unique(es, k);
            assert(counts.count(es[k].0) == mistakes_of(errors@, es[k].0));
        }
    }
    let mut out: Vec<(char, usize)> = Vec::new();
    let mut exhausted = false;
    while !exhausted && out.len() < limit
        invariant
            e@ == es,
            entries_wf(es),
            forall|c: char|
                mistakes_of(errors@, c) > 0 ==> exists|k: int| 0 <= k < es.len() && #[trigger] es[k].0 == c,
            forall|k: int| 0 <= k < es.len() ==> #[trigger] es[k].1 == mistakes_of(errors@, es[k].0),
            out@.len() <= limit,
            forall|i: int|
                0 <= i < out@.len() ==> #[trigger] out@[i].1 == mistakes_of(errors@, out@[i].0) && out@[i].1 > 0,
            forall|i: int, j: int| 0 <= i < j < out@.len() ==> ranks_before(#[trigger] out@[i], #[trigger] out@[j]),
            forall|k: int|
                0 <= k < es.len() && !lists(out@, #[trigger] es[k].0) ==> forall|i: int|
                    0 <= i < out@.len() ==> ranks_before(#[trigger] out@[i], es[k]),
            exhausted ==> forall|k: int| 0 <= k < es.len() ==> lists(out@, #[trigger] es[k].0),
        decreases limit - out@.len(), if exhausted { 0int } else { 1int },
    {
        let mut best: Option<usize> = None;
        let mut k: usize = 0;
        while k < e.len()
            invariant
                e@ == es,
                entries_wf(es),
                k <= es.len(),
                match best {
                    Some(b) => b < k && !lists(out@, es[b as int].0) && forall|kk: int|
                        0 <= kk < k && !lists(out@, #[trigger] es[kk].0) && kk != b ==> ranks_before(
                            es[b as int],
                            es[kk],
                        ),
                    None => forall|kk: int| 0 <= kk < k ==> lists(out@, #[trigger] es[kk].0),
                },
            decreases es.len() - k,
        {
            let entry = e[k];
            if !listed(&out, entry.0) {
                match best {
                    None => {
                        best = Some(k);
                    },
                    Some(b) => {
                        let cur = e[b];
                        if entry.1 > cur.1 || (entry.1 == cur.1 && entry.0 < cur.0) {
                            proof {
                                assert forall|kk: int|
                                    0 <= kk < k + 1 && !lists(out@, #[trigger] es[kk].0) && kk != k implies ranks_before(
                                    es[k as int],
                                    es[kk],
                                ) by {
                                    if kk != b {
                                        assert(ranks_before(es[b as int], es[kk]));
                                    }
                                }
                            }
                            best = Some(k);
                        } else {
                            proof {
                                assert(es[b as int].0 != es[k as int].0);
                            }
                        }
                    },
                }
            }
            k = k + 1;
        }
        match best {
            None => {
                exhausted = true;
            },
            Some(b) => {
                let chosen = e[b];
                let ghost before = out@;
                out.push(chosen);
                proof {
                    assert forall|kk: int|
                        0 <= kk < es.len() && !lists(out@, #[trigger] es[kk].0) implies forall|i: int|
                        0 <= i < out@.len() ==> ranks_before(#[trigger] out@[i], es[kk]) by {
                        assert(!lists(before, es[kk].0)) by {
                            if lists(before, es[kk].0) {
                                let i = choose|i: int| 0 <= i < before.len() && #[trigger] before[i].0 == es[kk].0;
                                assert(out@[i].0 == es[kk].0);
                            }
                        }
                        assert(out@[before.len() as int].0 == es[b as int].0);
                        assert(kk != b);
                        assert forall|i: int| 0 <= i < out@.len() implies ranks_before(#[trigger] out@[i], es[kk]) by {
                            if i < before.len() {
                                assert(out@[i] == before[i]);
                            }
                        }
                    }
                    assert forall|i: int, j: int| 0 <= i < j < out@.len() implies ranks_before(
                        #[trigger] out@[i],
                        #[trigger] out@[j],
                    ) by {
                        if j == before.len() {
                            assert(out@[i] == before[i]);
                        } else {
                            assert(out@[i] == before[i] && out@[j] == before[j]);
                        }
                    }
                    assert forall|i: int| 0 <= i < out@.len() implies #[trigger] out@[i].1 == mistakes_of(
                        errors@,
                        out@[i].0,
                    ) && out@[i].1 > 0 by {
                        if i < before.len() {
                            assert(out@[i] == before[i]);
                        } else {
                            assert(out@[i] == es[b as int]);
                        }
                    }
                    assert forall|kk: int| 0 <= kk < es.len() && lists(before, #[trigger] es[kk].0) implies lists(out@, es[kk].0) by {
                        let i = choose|i: int| 0 <= i < before.len() && #[trigger] before[i].0 == es[kk].0;
                        assert(out@[i].0 == es[kk].0);
                    }
                }
            },
        }
    }
    proof {
        assert forall|c: char|
            #![trigger mistakes_of(errors@, c)]
            mistakes_of(errors@, c) > 0 && !lists(out@, c) implies out@.len() == limit && forall|i: int|
                0 <= i < out@.len() ==> ranks_before(
                    #[trigger] out@[i],
                    (c, mistakes_of(errors@, c) as usize),
                ) by {
            let k = choose|k: int| 0 <= k < es.len() && #[trigger] es[k].0 == c;
            assert(es[k] == (c, mistakes_of(errors@, c) as usize));
        }
    }
    out
}

// -- Session totals -------------------------------------------------------------

/// Totals over every Exercise finished in the session.
#[derive(Debug)]
pub struct SessionStats {
    pub exercises_completed: usize,
    pub total_correct_chars: usize,
    pub total_errors: usize,
    pub total_time: Duration,
}

impl Default for SessionStats {
    fn default() -> (r: Self)
        ensures
            r.exercises_completed == 0,
            r.total_correct_chars == 0,
            r.total_errors == 0,
            duration_nanos(r.total_time) == 0,
    {
        SessionStats {
            exercises_completed: 0,
            total_correct_chars: 0,
            total_errors: 0,
            total_time: zero_duration(),
        }
    }
}

/// The counts of one finished Exercise, for the stats screen.
#[derive(Debug)]
pub struct ExerciseStats {
    pub elapsed: Duration,
    pub correct_chars: usize,
    pub error_count: usize,
    /// Up to [`TOP_MISTAKES_LIMIT`] most-mistyped expected characters, by
    /// count descending, ties broken by character ascending.
    pub top_mistakes: Vec<(char, usize)>,
}

fn copy_pairs(v: &Vec<(char, usize)>) -> (r: Vec<(char, usize)>)
    ensures
        r@ == v@,
{
    let mut r: Vec<(char, usize)> = Vec::new();
    let mut i: usize = 0;
    while i < v.len()
        invariant
            i <= v@.len(),
            r@ == v@.take(i as int),
        decreases v@.len() - i,
    {
        r.push(v[i]);
        i = i + 1;
        proof {
            assert(r@ =~= v@.take(i as int));
        }
    }
    proof {
        assert(v@.take(v@.len() as int) =~= v@);
    }
    r
}

impl Clone for SessionStats {
    fn clone(&self) -> (r: Self)
        ensures
            r == *self,
    {
        SessionStats {
            exercises_completed: self.exercises_completed,
            total_correct_chars: self.total_correct_chars,
            total_errors: self.total_errors,
            total_time: self.total_time,
        }
    }
}

impl Clone for ExerciseStats {
    fn clone(&self) -> (r: Self)
        ensures
            r.elapsed == self.elapsed,
            r.correct_chars == self.correct_chars,
            r.error_count == self.error_count,
            r.top_mistakes@ == self.top_mistakes@,
    {
        ExerciseStats {
            elapsed: self.elapsed,
            correct_chars: self.correct_chars,
            error_count: self.error_count,
            top_mistakes: copy_pairs(&self.top_mistakes),
        }
    }
}

/// The fold of finished Exercises into session totals and cumulative
/// per-character error counts (keyed by the character that was expected).
pub struct StatsCollector {
    session: SessionStats,
    error_counts: ErrorCounts,
}

impl StatsCollector {
    /// The invariant: well-formed counts, none above the session's error
    /// total.
    pub closed spec fn wf(&self) -> bool {
        &&& self.error_counts.wf()
        &&& forall|c: char| #[trigger] self.error_counts.count(c) <= self.session.total_errors
    }

    /// The session totals.
    pub closed spec fn totals(&self) -> SessionStats {
        self.session
    }

    /// The cumulative count of mistakes on `c`.
    pub closed spec fn count_of(&self, c: char) -> nat {
        self.error_counts.count(c)
    }

    /// The cumulative per-character error counts.
    pub closed spec fn counts(&self) -> Map<char, nat> {
        self.error_counts@
    }

    /// A collector with an empty session.
    pub fn new() -> (r: Self)
        ensures
            r.wf(),
            r.totals().exercises_completed == 0,
            r.totals().total_correct_chars == 0,
            r.totals().total_errors == 0,
            duration_nanos(r.totals().total_time) == 0,
            r.counts() == Map::<char, nat>::empty(),
    {
        StatsCollector { session: SessionStats::default(), error_counts: ErrorCounts::new() }
    }

    /// Fold one finished Exercise into the running totals and return its
    /// per-Exercise counts.
    ///
    /// `errors` is every wrong keystroke of the Exercise (corrected ones
    /// included); `correct_chars` the positions typed correctly that count;
    /// `elapsed` the time the Exercise took.
    pub fn finish_exercise(&mut self, errors: &[ErrorEvent], correct_chars: usize, elapsed: Duration) -> (r: ExerciseStats)
        requires
            old(self).wf(),
            old(self).totals().exercises_completed < usize::MAX,
            old(self).totals().total_correct_chars + correct_chars <= usize::MAX,
            old(self).totals().total_errors + errors@.len() <= usize::MAX,
            duration_nanos(old(self).totals().total_time) + duration_nanos(elapsed) <= max_duration_nanos(),
        ensures
            final(self).wf(),
            r.elapsed == elapsed,
            r.correct_chars == correct_chars,
            r.error_count == errors@.len(),
            is_top_mistakes(errors@, TOP_MISTAKES_LIMIT as nat, r.top_mistakes@),
            final(self).totals().exercises_completed == old(self).totals().exercises_completed + 1,
            final(self).totals().total_correct_chars == old(self).totals().total_correct_chars + correct_chars,
            final(self).totals().total_errors == old(self).totals().total_errors + errors@.len(),
            duration_nanos(final(self).totals().total_time) == duration_nanos(old(self).totals().total_time)
                + duration_nanos(elapsed),
            forall|c: char|
                #[trigger] final(self).count_of(c) == old(self).count_of(c) + mistakes_of(errors@, c),
    {
        let error_count = errors.len();
        let top = top_mistakes(errors, TOP_MISTAKES_LIMIT);
        let old_time = self.session.total_time;
        let stats = ExerciseStats {
            elapsed,
            correct_chars,
            error_count,
            top_mistakes: top,
        };
        let ghost start_total = old(self).session.total_errors;
        let mut i: usize = 0;
        while i < errors.len()
            invariant
                i <= errors@.len(),
                self.error_counts.wf(),
                self.session == old(self).session,
                start_total == self.session.total_errors,
                start_total + errors@.len() <= usize::MAX,
                forall|c: char| #[trigger] old(self).error_counts.count(c) <= start_total,
                forall|c: char|
                    #[trigger] self.error_counts.count(c) == old(self).error_counts.count(c) + mistakes_of(
                        errors@.take(i as int),
                        c,
                    ),
            decreases errors@.len() - i,
        {
            let c = errors[i].expected;
            proof {
                lemma_mistakes_bounded(errors@.take(i as int), c);
            }
            self.error_counts.record(c);
            proof {
                assert(errors@.take(i + 1).drop_last() =~= errors@.take(i as int));
            }
            i = i + 1;
        }
        self.session.exercises_completed = self.session.exercises_completed + 1;
        self.session.total_correct_chars = self.session.total_correct_chars + correct_chars;
        self.session.total_errors = self.session.total_errors + error_count;
        self.session.total_time = add_durations(old_time, elapsed);
        proof {
            assert(errors@.take(errors@.len() as int) =~= errors@);
            assert forall|c: char| #[trigger] self.error_counts.count(c) <= self.session.total_errors by {
                lemma_mistakes_bounded(errors@, c);
            }
        }
        stats
    }

    /// Whether the session totals can take one more Exercise with `errors`,
    /// `correct_chars` and `elapsed` without exceeding their types.
    pub open spec fn can_take(
        &self,
        errors: Seq<ErrorEvent>,
        correct_chars: usize,
        elapsed: Duration,
    ) -> bool {
        &&& self.totals().exercises_completed < usize::MAX
        &&& self.totals().total_correct_chars + correct_chars <= usize::MAX
        &&& self.totals().total_errors + errors.len() <= usize::MAX
        &&& duration_nanos(self.totals().total_time) + duration_nanos(elapsed) <= max_duration_nanos()
    }

    /// `new` is `old` after it folded in an Exercise with `errors`,
    /// `correct_chars` and `elapsed`, whose counts are `r`.
    pub open spec fn folded(
        old: StatsCollector,
        new: StatsCollector,
        errors: Seq<ErrorEvent>,
        correct_chars: usize,
        elapsed: Duration,
        r: ExerciseStats,
    ) -> bool {
        &&& new.wf()
        &&& r.elapsed == elapsed
        &&& r.correct_chars == correct_chars
        &&& r.error_count == errors.len()
        &&& is_top_mistakes(errors, TOP_MISTAKES_LIMIT as nat, r.top_mistakes@)
        &&& new.totals().exercises_completed == old.totals().exercises_completed + 1
        &&& new.totals().total_correct_chars == old.totals().total_correct_chars + correct_chars
        &&& new.totals().total_errors == old.totals().total_errors + errors.len()
        &&& duration_nanos(new.totals().total_time) == duration_nanos(old.totals().total_time)
            + duration_nanos(elapsed)
        &&& forall|c: char| #[trigger] new.count_of(c) == old.count_of(c) + mistakes_of(errors, c)
    }

    /// [`Self::finish_exercise`] when the totals can take the Exercise;
    /// otherwise `None`, with nothing changed.
    pub fn try_finish_exercise(&mut self, errors: &[ErrorEvent], correct_chars: usize, elapsed: Duration) -> (r: Option<ExerciseStats>)
        requires
            old(self).wf(),
        ensures
            final(self).wf(),
            r is Some <==> old(self).can_take(errors@, correct_chars, elapsed),
            r matches Some(s) ==> Self::folded(*old(self), *final(self), errors@, correct_chars, elapsed, s),
            r is None ==> *final(self) == *old(self),
    {
        if self.session.exercises_completed == usize::MAX {
            return None;
        }
        if correct_chars > usize::MAX - self.session.total_correct_chars {
            return None;
        }
        if errors.len() > usize::MAX - self.session.total_errors {
            return None;
        }
        if checked_add_durations(self.session.total_time, elapsed).is_none() {
            return None;
        }
        Some(self.finish_exercise(errors, correct_chars, elapsed))
    }

    /// The session totals so far.
    pub fn session(&self) -> (r: &SessionStats)
        ensures
            *r == self.totals(),
    {
        &self.session
    }

    /// The cumulative per-character error counts.
    pub fn error_counts(&self) -> (r: &ErrorCounts)
        ensures
            self.wf() ==> r.wf(),
            r@ == self.counts(),
    {
        &self.error_counts
    }
}

} // verus!
