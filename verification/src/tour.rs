//! Round-robin selector across the Repo Tour's eligible Exercise pool.
//!
//! Keeps per-file visit counts and declaration indices. [`RepoTour::next`]
//! returns the next Exercise from the file with the lowest visit count; ties
//! break on the file's position. [`RepoTour::new`] randomizes that position so
//! each fresh tour starts on a different file; [`RepoTour::new_in_order`]
//! keeps the input order.

use rand::seq::SliceRandom;
use vstd::prelude::*;

use crate::exercise::{Exercise, ExerciseView, exercise_views};

verus! {

/// The mathematical content of one file of the tour.
pub struct FileView {
    pub path: Seq<char>,
    pub exercises: Seq<ExerciseView>,
    pub next_index: nat,
    pub visited: nat,
}

struct FileState {
    // Never empty: files without exercises are filtered out on construction.
    exercises: Vec<Exercise>,
    next_index: usize,
    visited: usize,
}

/// The tour: one entry per file that has at least one Exercise.
pub struct RepoTour {
    files: Vec<(String, FileState)>,
}

spec fn file_view(f: (String, FileState)) -> FileView {
    FileView {
        path: f.0@,
        exercises: exercise_views(f.1.exercises@),
        next_index: f.1.next_index as nat,
        visited: f.1.visited as nat,
    }
}

spec fn files_view(s: Seq<(String, FileState)>) -> Seq<FileView> {
    s.map_values(|f: (String, FileState)| file_view(f))
}

impl View for RepoTour {
    type V = Seq<FileView>;

    closed spec fn view(&self) -> Seq<FileView> {
        files_view(self.files@)
    }
}

/// Every file has an Exercise and its next index points at one.
pub open spec fn tour_wf(s: Seq<FileView>) -> bool {
    forall|i: int|
        0 <= i < s.len() ==> #[trigger] s[i].exercises.len() > 0 && s[i].next_index
            < s[i].exercises.len()
}

/// The files a tour is built from, in input order: the files with at least
/// one Exercise, none visited yet, each starting at its first Exercise.
pub open spec fn initial_files(per_file: Seq<(Seq<char>, Seq<ExerciseView>)>) -> Seq<FileView>
    decreases per_file.len(),
{
    if per_file.len() == 0 {
        seq![]
    } else {
        let rest = initial_files(per_file.drop_last());
        let (path, exercises) = per_file.last();
        if exercises.len() == 0 {
            rest
        } else {
            rest.push(FileView { path, exercises, next_index: 0, visited: 0 })
        }
    }
}

/// The input of a tour constructor, by views.
pub open spec fn per_file_views(v: Seq<(String, Vec<Exercise>)>) -> Seq<
    (Seq<char>, Seq<ExerciseView>),
> {
    v.map_values(|p: (String, Vec<Exercise>)| (p.0@, exercise_views(p.1@)))
}

/// The index of the file the tour visits next: the first file with the
/// lowest visit count.
pub open spec fn least_visited(s: Seq<FileView>) -> int
    decreases s.len(),
{
    if s.len() <= 1 {
        0
    } else {
        let k = least_visited(s.drop_last());
        if s.last().visited < s[k].visited {
            s.len() - 1
        } else {
            k
        }
    }
}

/// A file after it has been visited once: its next Exercise moves on,
/// wrapping after the last, and its visit count grows.
pub open spec fn advanced(f: FileView) -> FileView {
    FileView {
        next_index: ((f.next_index + 1) % f.exercises.len()) as nat,
        visited: f.visited + 1,
        ..f
    }
}

/// No file has been visited more than once more than any other.
pub open spec fn balanced(s: Seq<FileView>) -> bool {
    forall|i: int, j: int|
        0 <= i < s.len() && 0 <= j < s.len() ==> #[trigger] s[i].visited <= #[trigger] s[j].visited
            + 1
}

pub proof fn lemma_least_visited(s: Seq<FileView>)
    requires
        s.len() > 0,
    ensures
        0 <= least_visited(s) < s.len(),
        forall|j: int| 0 <= j < s.len() ==> s[least_visited(s)].visited <= #[trigger] s[j].visited,
        forall|j: int| 0 <= j < least_visited(s) ==> #[trigger] s[j].visited > s[least_visited(s)].visited,
    decreases s.len(),
{
    if s.len() > 1 {
        lemma_least_visited(s.drop_last());
        let k = least_visited(s.drop_last());
        assert forall|j: int| 0 <= j < s.len() - 1 implies #[trigger] s[j].visited == s.drop_last()[j].visited by {}
        if s.last().visited < s[k].visited {
            assert forall|j: int| 0 <= j < s.len() - 1 implies #[trigger] s[j].visited > s.last().visited by {
                assert(s.drop_last()[j].visited >= s[k].visited);
            }
        }
    }
}

proof fn lemma_initial_files_wf(p: Seq<(Seq<char>, Seq<ExerciseView>)>)
    ensures
        tour_wf(initial_files(p)),
        forall|i: int| 0 <= i < initial_files(p).len() ==> #[trigger] initial_files(p)[i].visited == 0,
        forall|i: int| 0 <= i < initial_files(p).len() ==> #[trigger] initial_files(p)[i].next_index == 0,
    decreases p.len(),
{
    if p.len() > 0 {
        lemma_initial_files_wf(p.drop_last());
    }
}

/// Shuffles the tour's files in place, with the thread-local generator
/// (`rand::seq::SliceRandom::shuffle` and `rand::rng`). The order that comes
/// out is random; stated is only that it is a permutation of the input.
#[verifier::external_body]
fn shuffle_files(files: &mut Vec<(String, FileState)>)
    ensures
        files_view(final(files)@).to_multiset() == files_view(old(files)@).to_multiset(),
{
    files.shuffle(&mut rand::rng());
}

impl RepoTour {
    /// The tour's invariant.
    pub closed spec fn wf(&self) -> bool {
        tour_wf(self@)
    }

    /// Build a tour from (file path, Exercises) pairs. The file order is
    /// randomized so each fresh tour starts on a different file; within the
    /// tour, round-robin still visits every file once per cycle.
    pub fn new(per_file: Vec<(String, Vec<Exercise>)>) -> (r: Self)
        ensures
            r.wf(),
            r@.to_multiset() == initial_files(per_file_views(per_file@)).to_multiset(),
    {
        let mut tour = Self::new_in_order(per_file);
        shuffle_files(&mut tour.files);
        proof {
            broadcast use vstd::seq_lib::group_to_multiset_ensures;

            let before = initial_files(per_file_views(per_file@));
            assert forall|i: int| 0 <= i < tour@.len() implies #[trigger] tour@[i].exercises.len()
                > 0 && tour@[i].next_index < tour@[i].exercises.len() by {
                assert(tour@.to_multiset().count(tour@[i]) > 0);
                assert(before.contains(tour@[i]));
                let k = choose|k: int| 0 <= k < before.len() && before[k] == tour@[i];
                assert(before[k].exercises.len() > 0);
            }
        }
        tour
    }

    /// Build a tour preserving the order of the input. Deterministic; used
    /// where a reproducible sequence is needed.
    pub fn new_in_order(per_file: Vec<(String, Vec<Exercise>)>) -> (r: Self)
        ensures
            r.wf(),
            r@ == initial_files(per_file_views(per_file@)),
    {
        let ghost input = per_file@;
        let mut files: Vec<(String, FileState)> = Vec::new();
        for entry in it: per_file.into_iter()
            invariant
                input == it.seq(),
                files_view(files@) == initial_files(per_file_views(it.seq().take(it.index() as int))),
        {
            let ghost i = it.index();
            proof {
                assert(per_file_views(it.seq().take(i + 1)).drop_last() =~= per_file_views(
                    it.seq().take(i),
                ));
                assert(per_file_views(it.seq().take(i + 1)).last() == (
                    entry.0@,
                    exercise_views(entry.1@),
                ));
            }
            let (path, exercises) = entry;
            if exercises.len() > 0 {
                let ghost before = files@;
                files.push((path, FileState { exercises, next_index: 0, visited: 0 }));
                proof {
                    assert(files_view(files@) =~= files_view(before).push(file_view(files@.last())));
                }
            }
        }
        proof {
            assert(input.take(input.len() as int) =~= input);
            lemma_initial_files_wf(per_file_views(input));
        }
        Self { files }
    }

    /// Whether the tour has no file at all.
    pub fn is_empty(&self) -> (r: bool)
        ensures
            r == (self@.len() == 0),
    {
        self.files.len() == 0
    }

    fn least_visited_index(&self) -> (k: usize)
        requires
            self@.len() > 0,
        ensures
            k == least_visited(self@),
            k < self@.len(),
    {
        let n = self.files.len();
        let ghost s = self@;
        let mut best: usize = 0;
        let mut i: usize = 1;
        while i < n
            invariant
                n == self.files@.len(),
                s == self@,
                1 <= i <= n,
                best < i,
                best == least_visited(s.take(i as int)),
            decreases n - i,
        {
            proof {
                assert(s.take(i + 1).drop_last() =~= s.take(i as int));
                lemma_least_visited(s.take(i as int));
            }
            if self.files[i].1.visited < self.files[best].1.visited {
                best = i;
            }
            i = i + 1;
        }
        proof {
            assert(s.take(n as int) =~= s);
            lemma_least_visited(s);
        }
        best
    }

    /// Whether [`Self::next`] can count one more visit of the file it would
    /// pick (always, short of `usize::MAX` visits of one file).
    pub fn can_visit(&self) -> (r: bool)
        ensures
            r == (self@.len() > 0 ==> self@[least_visited(self@)].visited < usize::MAX),
    {
        if self.files.len() == 0 {
            return true;
        }
        let k = self.least_visited_index();
        self.files[k].1.visited < usize::MAX
    }

    /// Return the next Exercise by the round-robin policy: the next
    /// Exercise of the first file with the lowest visit count. `None` only if
    /// the pool is empty; otherwise the tour cycles forever.
    pub fn next(&mut self) -> (r: Option<Exercise>)
        requires
            old(self).wf(),
            old(self)@.len() > 0 ==> old(self)@[least_visited(old(self)@)].visited < usize::MAX,
        ensures
            final(self).wf(),
            old(self)@.len() == 0 ==> r is None && final(self)@ == old(self)@,
            old(self)@.len() > 0 ==> {
                let k = least_visited(old(self)@);
                let f = old(self)@[k];
                &&& r matches Some(e) && e@ == f.exercises[f.next_index as int]
                &&& final(self)@ == old(self)@.update(k, advanced(f))
            },
            old(self)@.len() > 0 ==> final(self)@ == tour_step(old(self)@),
            old(self)@.len() > 0 ==> (r matches Some(e) && e@ == tour_pick(old(self)@)),
    {
        let n = self.files.len();
        if n == 0 {
            return None;
        }
        let ghost s = self@;
        let best = self.least_visited_index();
        proof {
            lemma_least_visited(s);
        }
        let ghost before = self.files@;
        let (path, state) = self.files.remove(best);
        proof {
            assert(state == before[best as int].1);
            assert(s[best as int] == file_view(before[best as int]));
            assert(tour_wf(s));
            assert(s[best as int].exercises.len() > 0);
        }
        let len = state.exercises.len();
        let exercise = state.exercises[state.next_index].clone();
        let next_index = (state.next_index + 1) % len;
        let visited = state.visited + 1;
        let fresh = FileState { exercises: state.exercises, next_index, visited };
        self.files.insert(best, (path, fresh));
        proof {
            assert(self.files@ =~= before.update(best as int, self.files@[best as int]));
            assert(self@ =~= s.update(best as int, advanced(s[best as int])));
        }
        Some(exercise)
    }
}

/// A tour whose visit counts are within one of each other stays so after
/// [`RepoTour::next`]: no file is visited twice before every other file has
/// been visited once.
pub proof fn law_tour_stays_balanced(s: Seq<FileView>)
    requires
        tour_wf(s),
        s.len() > 0,
        balanced(s),
    ensures
        balanced(s.update(least_visited(s), advanced(s[least_visited(s)]))),
        tour_wf(s.update(least_visited(s), advanced(s[least_visited(s)]))),
{
    lemma_least_visited(s);
    let k = least_visited(s);
    let t = s.update(k, advanced(s[k]));
    assert forall|i: int, j: int| 0 <= i < t.len() && 0 <= j < t.len() implies #[trigger] t[i].visited
        <= #[trigger] t[j].visited + 1 by {
        assert(s[i].visited <= s[j].visited + 1);
        assert(s[k].visited <= s[j].visited);
        assert(s[k].visited <= s[i].visited);
    }
    assert forall|i: int| 0 <= i < t.len() implies #[trigger] t[i].exercises.len() > 0
        && t[i].next_index < t[i].exercises.len() by {
        if i == k {
            assert(s[k].exercises.len() > 0);
        }
    }
}

/// The file the tour visits is never one visited more often than another.
pub proof fn law_tour_visits_least_visited_file(s: Seq<FileView>, j: int)
    requires
        s.len() > 0,
        0 <= j < s.len(),
    ensures
        s[least_visited(s)].visited <= s[j].visited,
        j < least_visited(s) ==> s[j].visited > s[least_visited(s)].visited,
{
    lemma_least_visited(s);
}

/// A tour built by [`RepoTour::new_in_order`] or [`RepoTour::new`] starts
/// balanced, with no file visited.
pub proof fn law_new_tour_is_balanced(per_file: Seq<(Seq<char>, Seq<ExerciseView>)>)
    ensures
        balanced(initial_files(per_file)),
        tour_wf(initial_files(per_file)),
{
    lemma_initial_files_wf(per_file);
}

/// The tour after one call of [`RepoTour::next`] on a non-empty tour.
pub open spec fn tour_step(s: Seq<FileView>) -> Seq<FileView> {
    let k = least_visited(s);
    s.update(k, advanced(s[k]))
}

/// The tour after `k` calls of [`RepoTour::next`].
pub open spec fn tour_after(s: Seq<FileView>, k: nat) -> Seq<FileView>
    decreases k,
{
    if k == 0 {
        s
    } else {
        tour_step(tour_after(s, (k - 1) as nat))
    }
}

/// The Exercise the next call of [`RepoTour::next`] returns.
pub open spec fn tour_pick(s: Seq<FileView>) -> ExerciseView {
    let f = s[least_visited(s)];
    f.exercises[f.next_index as int]
}

proof fn lemma_div_mod_step(k: int, n: int)
    requires
        n > 0,
        k >= 0,
    ensures
        k % n + 1 < n ==> (k + 1) % n == k % n + 1 && (k + 1) / n == k / n,
        k % n + 1 == n ==> (k + 1) % n == 0 && (k + 1) / n == k / n + 1,
        0 <= k % n < n,
        k / n >= 0,
{
    vstd::arithmetic::div_mod::lemma_fundamental_div_mod(k, n);
    vstd::arithmetic::div_mod::lemma_fundamental_div_mod(k + 1, n);
    vstd::arithmetic::div_mod::lemma_mod_bound(k, n);
    vstd::arithmetic::div_mod::lemma_mod_bound(k + 1, n);
    let q = k / n;
    let r = k % n;
    assert(q * n == n * q) by (nonlinear_arith);
    assert((q + 1) * n == q * n + n) by (nonlinear_arith);
    if r + 1 < n {
        vstd::arithmetic::div_mod::lemma_fundamental_div_mod_converse(k + 1, n, q, r + 1);
    } else {
        vstd::arithmetic::div_mod::lemma_fundamental_div_mod_converse(k + 1, n, q + 1, 0);
    }
    vstd::arithmetic::div_mod::lemma_div_pos_is_pos(k, n);
}

proof fn lemma_next_mod(v: int, len: int)
    requires
        len > 0,
        v >= 0,
    ensures
        ((v % len) + 1) % len == (v + 1) % len,
{
    vstd::arithmetic::div_mod::lemma_add_mod_noop(v, 1, len);
    if len == 1 {
        vstd::arithmetic::div_mod::lemma_mod_self_0(1);
    } else {
        vstd::arithmetic::div_mod::lemma_small_mod(1, len as nat);
    }
}

/// The shape of a fresh tour after `k` steps: every file is visited `k / n`
/// times, plus once more for the first `k % n` files, and each points at
/// its Exercise numbered by its visit count, cycling.
proof fn lemma_tour_rounds(s: Seq<FileView>, k: nat)
    requires
        tour_wf(s),
        s.len() > 0,
        forall|i: int| 0 <= i < s.len() ==> #[trigger] s[i].visited == 0 && s[i].next_index == 0,
    ensures
        tour_after(s, k).len() == s.len(),
        forall|i: int|
            0 <= i < s.len() ==> {
                let t = #[trigger] tour_after(s, k)[i];
                &&& t.path == s[i].path
                &&& t.exercises == s[i].exercises
                &&& t.visited == (k as int) / (s.len() as int) + if i < (k as int) % (s.len() as int) {
                    1int
                } else {
                    0int
                }
                &&& t.next_index == (t.visited as int) % (s[i].exercises.len() as int)
            },
    decreases k,
{
    let n = s.len() as int;
    if k == 0 {
        assert forall|i: int| 0 <= i < s.len() implies {
            let t = #[trigger] tour_after(s, 0)[i];
            &&& t.path == s[i].path
            &&& t.exercises == s[i].exercises
            &&& t.visited == 0int / n + if i < 0int % n {
                1int
            } else {
                0int
            }
            &&& t.next_index == (t.visited as int) % (s[i].exercises.len() as int)
        } by {
            assert(s[i].exercises.len() > 0);
            vstd::arithmetic::div_mod::lemma_small_mod(0, s[i].exercises.len());
        }
    } else {
        let j = (k - 1) as nat;
        lemma_tour_rounds(s, j);
        let p = tour_after(s, j);
        lemma_div_mod_step(j as int, n);
        let q = (j as int) / n;
        let m = (j as int) % n;
        lemma_least_visited(p);
        let lv = least_visited(p);
        assert(p[m].visited == q);
        if lv < m {
            assert(p[lv].visited == q + 1);
        } else if lv > m {
            assert(p[m].visited > p[lv].visited);
        }
        assert(lv == m);
        assert(tour_after(s, k) == tour_step(p));
        assert forall|i: int| 0 <= i < s.len() implies {
            let t = #[trigger] tour_after(s, k)[i];
            &&& t.path == s[i].path
            &&& t.exercises == s[i].exercises
            &&& t.visited == (k as int) / n + if i < (k as int) % n {
                1int
            } else {
                0int
            }
            &&& t.next_index == (t.visited as int) % (s[i].exercises.len() as int)
        } by {
            assert(s[i].exercises.len() > 0);
            if i == m {
                lemma_next_mod(p[m].visited as int, s[m].exercises.len() as int);
            }
        }
    }
}

/// The tour visits its files in rounds: the `k`-th call of
/// [`RepoTour::next`] on a fresh tour of `n` files (numbering from 0)
/// visits file `k % n` and returns its Exercise number `k / n`, cycling
/// through that file's Exercises; so the tour never runs out, and after
/// any number of calls no file has been visited twice more than another.
pub proof fn law_tour_visits_in_rounds(per_file: Seq<(Seq<char>, Seq<ExerciseView>)>, k: nat)
    requires
        initial_files(per_file).len() > 0,
    ensures
        ({
            let s = initial_files(per_file);
            let n = s.len() as int;
            let f = s[(k as int) % n];
            &&& least_visited(tour_after(s, k)) == (k as int) % n
            &&& tour_pick(tour_after(s, k)) == f.exercises[((k as int) / n) % (f.exercises.len() as int)]
            &&& balanced(tour_after(s, k))
            &&& tour_wf(tour_after(s, k))
        }),
{
    let s = initial_files(per_file);
    let n = s.len() as int;
    lemma_initial_files_wf(per_file);
    lemma_tour_rounds(s, k);
    lemma_div_mod_step(k as int, n);
    let t = tour_after(s, k);
    let m = (k as int) % n;
    let q = (k as int) / n;
    lemma_least_visited(t);
    let lv = least_visited(t);
    assert(t[m].visited == q);
    if lv < m {
        assert(t[lv].visited == q + 1);
    } else if lv > m {
        assert(t[m].visited > t[lv].visited);
    }
    assert(lv == m);
    assert forall|i: int, j: int| 0 <= i < t.len() && 0 <= j < t.len() implies #[trigger] t[i].visited
        <= #[trigger] t[j].visited + 1 by {}
    assert forall|i: int| 0 <= i < t.len() implies #[trigger] t[i].exercises.len() > 0
        && t[i].next_index < t[i].exercises.len() by {
        assert(s[i].exercises.len() > 0);
        vstd::arithmetic::div_mod::lemma_mod_bound(t[i].visited as int, s[i].exercises.len() as int);
    }
}

} // verus!
