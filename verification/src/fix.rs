//! Classifying commits as bug fixes and assembling Fix records.

use vstd::prelude::*;
use vstd::string::*;

use crate::pattern::regex_matches;
use crate::pattern::FixPattern;

verus! {

/// One bug-fix commit, as the scorer sees it: the first line of the commit
/// message, the commit timestamp in seconds since the epoch, and the files
/// the fix touched (relative paths, duplicates possible, empty paths
/// excluded).
pub struct Fix {
    /// First line of the commit message.
    pub message: String,
    /// Commit timestamp, in seconds since the epoch.
    pub date: i64,
    /// Paths of the files the fix touched.
    pub files: Vec<String>,
}

/// The index of the first line feed of `s`, or its length when it has none.
pub open spec fn first_newline(s: Seq<char>) -> int
    decreases s.len(),
{
    if s.len() == 0 {
        0
    } else if s[0] == '\n' {
        0
    } else {
        1 + first_newline(s.drop_first())
    }
}

/// The first line of `s`: everything before the first line feed, without a
/// carriage return that immediately precedes that line feed.
pub open spec fn first_line_of(s: Seq<char>) -> Seq<char> {
    let j = first_newline(s);
    let k = if j < s.len() && j > 0 && s[j - 1] == '\r' {
        j - 1
    } else {
        j
    };
    s.subrange(0, k)
}

/// An index before which no line feed stands, and at which one stands
/// unless it is the length, is the index of the first line feed.
proof fn lemma_first_newline_at(s: Seq<char>, j: int)
    requires
        0 <= j <= s.len(),
        forall|k: int| 0 <= k < j ==> s[k] != '\n',
        j < s.len() ==> s[j] == '\n',
    ensures
        first_newline(s) == j,
    decreases j,
{
    if s.len() == 0 {
    } else if s[0] == '\n' {
        assert(j == 0);
    } else {
        assert(j > 0);
        lemma_first_newline_at(s.drop_first(), j - 1);
    }
}

/// The first line of a commit message, as `str::lines` would yield it.
pub fn first_line(s: &str) -> (r: String)
    ensures
        r@ == first_line_of(s@),
{
    let n: usize = s.unicode_len();
    let mut j: usize = 0;
    while j < n && s.get_char(j) != '\n'
        invariant
            n == s@.len(),
            j <= n,
            forall|k: int| 0 <= k < j ==> s@[k] != '\n',
        decreases n - j,
    {
        j = j + 1;
    }
    proof {
        lemma_first_newline_at(s@, j as int);
    }
    let k: usize = if j < n && j > 0 && s.get_char(j - 1) == '\r' {
        j - 1
    } else {
        j
    };
    let line = s.substring_char(0, k);
    line.to_owned()
}

/// Whether a path is kept by the change extractor: only non-empty paths
/// name a file that existed in the parent tree.
pub open spec fn kept_path(p: String) -> bool {
    p@.len() != 0
}

/// The changed files of a fix: the paths the tree diff reported, with the
/// empty ones dropped.
pub fn changed_files(paths: &Vec<String>) -> (r: Vec<String>)
    ensures
        r@ == paths@.filter(|p: String| kept_path(p)),
{
    let mut out: Vec<String> = Vec::new();
    let mut i: usize = 0;
    proof {
        reveal(Seq::filter);
        assert(paths@.subrange(0, 0) =~= Seq::<String>::empty());
    }
    while i < paths.len()
        invariant
            i <= paths@.len(),
            out@ == paths@.subrange(0, i as int).filter(|p: String| kept_path(p)),
        decreases paths@.len() - i,
    {
        proof {
            reveal(Seq::filter);
            assert(paths@.subrange(0, i + 1).drop_last() =~= paths@.subrange(0, i as int));
            assert(paths@.subrange(0, i + 1).last() == paths@[i as int]);
        }
        if !paths[i].as_str().is_empty() {
            out.push(paths[i].clone());
        }
        i = i + 1;
    }
    proof {
        assert(paths@.subrange(0, paths@.len() as int) =~= paths@);
    }
    out
}

/// The fix classifier: `Some` of the first line of `message` exactly when
/// the pattern matches within that line. The pattern decides case and
/// anchoring on its own; no normalization happens here.
pub fn classify(pattern: &FixPattern, message: &str) -> (r: Option<String>)
    ensures
        r is Some <==> regex_matches(pattern.pattern_spec(), first_line_of(message@)),
        r matches Some(line) ==> line@ == first_line_of(message@),
{
    let line = first_line(message);
    if pattern.is_match(line.as_str()) {
        Some(line)
    } else {
        None
    }
}

/// Assemble the Fix record of a classified commit: the message line the
/// classifier accepted, the commit timestamp, and the changed files with
/// empty paths dropped.
pub fn build_fix(message_line: String, date: i64, paths: &Vec<String>) -> (r: Fix)
    ensures
        r.message == message_line,
        r.date == date,
        r.files@ == paths@.filter(|p: String| kept_path(p)),
{
    Fix { message: message_line, date, files: changed_files(paths) }
}

} // verus!
