//! Chooses the source files of a Git-managed repository to drill.
//!
//! The files are those that `git ls-files` lists (so untracked, ignored and
//! generated files stay out of the Exercise pool), kept when their extension
//! is one of the Extractor's and their line count is within a cap. Running
//! `git` and reading the files is left to the caller; this module turns what
//! they produced into the list of files.

use vstd::prelude::*;

use crate::paths::{
    extension_in, extension_matches, is_absolute_path, join_path, join_path_spec,
    lemma_join_onto_absolute,
};
use crate::text::{chars_of, lines, split_lines, str_views, string_of, string_views, views};

verus! {

/// Default line-count cap. Longer files are dropped before the Extractor
/// sees them: they are almost certainly generated or pathological.
pub const DEFAULT_MAX_LINES: usize = 2000;

/// The text of `bytes` with every invalid UTF-8 sequence replaced by
/// U+FFFD, as `String::from_utf8_lossy` makes it.
pub uninterp spec fn lossy_text(bytes: Seq<u8>) -> Seq<char>;

/// `String::from_utf8_lossy`: the decoded text of `bytes`, invalid sequences
/// replaced by U+FFFD. Stated beyond the name: valid UTF-8 decodes exactly.
#[verifier::external_body]
fn text_of_lossy(bytes: &[u8]) -> (r: String)
    ensures
        r@ == lossy_text(bytes@),
        vstd::utf8::valid_utf8(bytes@) ==> r@ == vstd::utf8::decode_utf8(bytes@),
{
    String::from_utf8_lossy(bytes).into_owned()
}

/// Number of `'\n'` bytes in `b`.
pub open spec fn newline_count(b: Seq<u8>) -> nat
    decreases b.len(),
{
    if b.len() == 0 {
        0
    } else {
        newline_count(b.drop_last()) + if b.last() == 10 {
            1nat
        } else {
            0nat
        }
    }
}

proof fn lemma_newline_count_bounded(b: Seq<u8>)
    ensures
        newline_count(b) <= b.len(),
    decreases b.len(),
{
    if b.len() > 0 {
        lemma_newline_count_bounded(b.drop_last());
    }
}

/// Number of lines of a file's contents: its `'\n'`s, plus one for a last
/// line without a line ending.
pub open spec fn line_count(b: Seq<u8>) -> nat {
    if b.len() == 0 {
        0
    } else if b.last() == 10 {
        newline_count(b)
    } else {
        newline_count(b) + 1
    }
}

/// The number of lines in a file's contents.
pub fn count_lines(bytes: &[u8]) -> (r: usize)
    ensures
        r == line_count(bytes@),
{
    if bytes.len() == 0 {
        return 0;
    }
    let mut count: usize = 0;
    let mut i: usize = 0;
    while i < bytes.len()
        invariant
            i <= bytes@.len(),
            count == newline_count(bytes@.take(i as int)),
            count <= i,
        decreases bytes@.len() - i,
    {
        proof {
            assert(bytes@.take(i + 1).drop_last() =~= bytes@.take(i as int));
        }
        if bytes[i] == 10 {
            count = count + 1;
        }
        i = i + 1;
    }
    proof {
        assert(bytes@.take(bytes@.len() as int) =~= bytes@);
    }
    if bytes[bytes.len() - 1] != 10 {
        proof {
            lemma_newline_count_bounded(bytes@.drop_last());
            assert(newline_count(bytes@) == newline_count(bytes@.drop_last()));
        }
        count = count + 1;
    }
    count
}

/// Whether a file whose line count is `line_count` (`None` when the file
/// could not be read) is within `max_lines`. An unreadable file cannot be
/// drilled, so it is dropped.
pub fn under_line_limit(line_count: Option<usize>, max_lines: usize) -> (r: bool)
    ensures
        r == (line_count matches Some(n) && n <= max_lines),
{
    match line_count {
        Some(n) => n <= max_lines,
        None => false,
    }
}

/// The files `git ls-files` lists in `stdout`, one per line, each joined
/// onto `root`.
pub open spec fn tracked_paths(root: Seq<char>, stdout: Seq<u8>) -> Seq<Seq<char>> {
    lines(lossy_text(stdout)).map_values(|l: Seq<char>| join_path_spec(root, l))
}

/// The files listed by `git ls-files` run in `root`, whose standard output
/// was `stdout`: one path per line, relative to `root`, returned joined onto
/// it. With an absolute `root`, every path is absolute.
pub fn list_tracked_files(root: &str, stdout: &[u8]) -> (r: Vec<String>)
    ensures
        string_views(r@) == tracked_paths(root@, stdout@),
        is_absolute_path(root@) ==> forall|i: int|
            0 <= i < r@.len() ==> is_absolute_path(#[trigger] r@[i]@),
{
    let text = text_of_lossy(stdout);
    let chars = chars_of(text.as_str());
    let ls = split_lines(chars.as_slice());
    let root_chars = chars_of(root);
    let mut out: Vec<String> = Vec::new();
    let mut i: usize = 0;
    while i < ls.len()
        invariant
            i <= ls@.len(),
            views(ls@) == lines(lossy_text(stdout@)),
            root_chars@ == root@,
            string_views(out@) == tracked_paths(root@, stdout@).take(i as int),
        decreases ls@.len() - i,
    {
        let joined = join_path(root_chars.as_slice(), ls[i].as_slice());
        let ghost before = out@;
        out.push(string_of(joined.as_slice()));
        proof {
            assert(views(ls@)[i as int] == ls@[i as int]@);
            assert(string_views(out@) =~= string_views(before).push(joined@));
            assert(tracked_paths(root@, stdout@).take(i + 1) =~= tracked_paths(root@, stdout@).take(
                i as int,
            ).push(joined@));
        }
        i = i + 1;
    }
    proof {
        assert(tracked_paths(root@, stdout@).take(ls@.len() as int) =~= tracked_paths(
            root@,
            stdout@,
        ));
        if is_absolute_path(root@) {
            assert forall|i: int| 0 <= i < out@.len() implies is_absolute_path(#[trigger] out@[i]@) by {
                assert(string_views(out@)[i] == out@[i]@);
                lemma_join_onto_absolute(root@, lines(lossy_text(stdout@))[i]);
            }
        }
    }
    out
}

/// The files of `listed` that a scan keeps: those with one of `extensions`
/// and a known line count within `max_lines` (`counts[i]` is the line count
/// of `listed[i]`).
pub open spec fn scanned(
    listed: Seq<Seq<char>>,
    counts: Seq<Option<usize>>,
    extensions: Seq<Seq<char>>,
    max_lines: nat,
) -> Seq<Seq<char>>
    decreases listed.len(),
{
    if listed.len() == 0 {
        seq![]
    } else {
        let rest = scanned(listed.drop_last(), counts.drop_last(), extensions, max_lines);
        let keep = extension_in(listed.last(), extensions) && (counts.last() matches Some(n)
            && n <= max_lines);
        if keep {
            rest.push(listed.last())
        } else {
            rest
        }
    }
}

/// Whether a scan keeps file `path` with line count `count`: its
/// extension is one of `extensions` and its count is known and within
/// `max_lines`.
pub open spec fn keeps_file(
    path: Seq<char>,
    count: Option<usize>,
    extensions: Seq<Seq<char>>,
    max_lines: nat,
) -> bool {
    extension_in(path, extensions) && (count matches Some(n) && n <= max_lines)
}

/// A scan decides each file on its own: scanning two lists one after the
/// other gives what scanning each gives, one after the other; and a single
/// file is kept exactly when its own extension and line count qualify.
pub proof fn law_scan_is_per_file(
    l1: Seq<Seq<char>>,
    c1: Seq<Option<usize>>,
    l2: Seq<Seq<char>>,
    c2: Seq<Option<usize>>,
    extensions: Seq<Seq<char>>,
    max_lines: nat,
)
    requires
        l1.len() == c1.len(),
        l2.len() == c2.len(),
    ensures
        scanned(l1 + l2, c1 + c2, extensions, max_lines) == scanned(l1, c1, extensions, max_lines)
            + scanned(l2, c2, extensions, max_lines),
        l2.len() == 1 ==> scanned(l2, c2, extensions, max_lines) == if keeps_file(
            l2[0],
            c2[0],
            extensions,
            max_lines,
        ) {
            l2
        } else {
            Seq::<Seq<char>>::empty()
        },
    decreases l2.len(),
{
    if l2.len() == 0 {
        assert(l1 + l2 =~= l1);
        assert(c1 + c2 =~= c1);
        assert(scanned(l1, c1, extensions, max_lines) + Seq::<Seq<char>>::empty() =~= scanned(
            l1,
            c1,
            extensions,
            max_lines,
        ));
    } else {
        law_scan_is_per_file(l1, c1, l2.drop_last(), c2.drop_last(), extensions, max_lines);
        assert((l1 + l2).drop_last() =~= l1 + l2.drop_last());
        assert((c1 + c2).drop_last() =~= c1 + c2.drop_last());
        assert((l1 + l2).last() == l2.last());
        assert((c1 + c2).last() == c2.last());
        let a = scanned(l1, c1, extensions, max_lines);
        let b = scanned(l2.drop_last(), c2.drop_last(), extensions, max_lines);
        assert((a + b).push(l2.last()) =~= a + b.push(l2.last()));
        if l2.len() == 1 {
            assert(l2.drop_last() =~= Seq::<Seq<char>>::empty());
            assert(scanned(l2.drop_last(), c2.drop_last(), extensions, max_lines) =~= Seq::<
                Seq<char>,
            >::empty());
            assert(Seq::<Seq<char>>::empty().push(l2.last()) =~= l2);
        }
    }
}

/// Enumerates the candidate source files of the repository at `root`.
pub struct RepoScanner {
    root: String,
    extensions: Vec<&'static str>,
    max_lines: usize,
}

impl RepoScanner {
    pub closed spec fn spec_root(&self) -> Seq<char> {
        self.root@
    }

    pub closed spec fn spec_extensions(&self) -> Seq<Seq<char>> {
        str_views(self.extensions@)
    }

    pub closed spec fn spec_max_lines(&self) -> nat {
        self.max_lines as nat
    }

    /// A scanner for the repository at `root`, keeping files with one of
    /// `extensions`, with the default line cap.
    pub fn new(root: &str, extensions: Vec<&'static str>) -> (r: Self)
        ensures
            r.spec_root() == root@,
            r.spec_extensions() == str_views(extensions@),
            r.spec_max_lines() == DEFAULT_MAX_LINES,
    {
        let root_chars = chars_of(root);
        RepoScanner { root: string_of(root_chars.as_slice()), extensions, max_lines: DEFAULT_MAX_LINES }
    }

    /// Builder-style override of the line cap.
    pub fn with_max_lines(self, max_lines: usize) -> (r: Self)
        ensures
            r.spec_root() == self.spec_root(),
            r.spec_extensions() == self.spec_extensions(),
            r.spec_max_lines() == max_lines,
    {
        RepoScanner { root: self.root, extensions: self.extensions, max_lines }
    }

    /// The repository root.
    pub fn root(&self) -> (r: &str)
        ensures
            r@ == self.spec_root(),
    {
        self.root.as_str()
    }

    /// The line cap.
    pub fn max_lines(&self) -> (r: usize)
        ensures
            r == self.spec_max_lines(),
    {
        self.max_lines
    }

    /// Whether `path` has one of the scanner's extensions.
    pub fn extension_matches(&self, path: &str) -> (r: bool)
        ensures
            r == extension_in(path@, self.spec_extensions()),
    {
        extension_matches(path, self.extensions.as_slice())
    }

    /// The candidate source files among `listed` (what
    /// [`list_tracked_files`] returned), given the line count of each
    /// (`None` for a file that could not be read): those with one of the
    /// extensions and within the line cap, in their listed order.
    pub fn scan(&self, listed: &[String], line_counts: &[Option<usize>]) -> (r: Vec<String>)
        requires
            listed@.len() == line_counts@.len(),
        ensures
            string_views(r@) == scanned(
                string_views(listed@),
                line_counts@,
                self.spec_extensions(),
                self.spec_max_lines(),
            ),
    {
        let ghost input = listed@;
        let mut kept: Vec<String> = Vec::new();
        let mut i: usize = 0;
        while i < listed.len()
            invariant
                input == listed@,
                i <= input.len(),
                input.len() == line_counts@.len(),
                string_views(kept@) == scanned(
                    string_views(input.take(i as int)),
                    line_counts@.take(i as int),
                    self.spec_extensions(),
                    self.spec_max_lines(),
                ),
            decreases input.len() - i,
        {
            proof {
                assert(string_views(input.take(i + 1)).drop_last() =~= string_views(input.take(i as int)));
                assert(line_counts@.take(i + 1).drop_last() =~= line_counts@.take(i as int));
                assert(string_views(input.take(i + 1)).last() == listed@[i as int]@);
            }
            let keep = self.extension_matches(listed[i].as_str()) && under_line_limit(line_counts[i], self.max_lines);
            if keep {
                let ghost before = kept@;
                kept.push(listed[i].clone());
                proof {
                    assert(string_views(kept@) =~= string_views(before).push(listed@[i as int]@));
                }
            }
            i = i + 1;
        }
        proof {
            assert(input.take(input.len() as int) =~= input);
            assert(line_counts@.take(line_counts@.len() as int) =~= line_counts@);
        }
        kept
    }
}

} // verus!
