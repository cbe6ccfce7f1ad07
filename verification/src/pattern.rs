//! Building the fix pattern that classifies commit messages.

use vstd::prelude::*;
use vstd::string::*;

use crate::options::Opts;

verus! {

/// The pattern built from a word list: every comma of the list becomes an
/// alternation bar, so "a,b,c" turns into "a|b|c".
pub open spec fn bar_join(w: Seq<char>) -> Seq<char> {
    w.map_values(|c: char| if c == ',' { '|' } else { c })
}

/// Replace every comma of `w` by a bar, keeping every other character.
fn replace_commas(w: &str) -> (r: String)
    ensures
        r@ == bar_join(w@),
{
    let n: usize = w.unicode_len();
    let mut out: String = String::new();
    let mut i: usize = 0;
    while i < n
        invariant
            n == w@.len(),
            i <= n,
            out@.len() == i,
            forall|k: int|
                0 <= k < i ==> out@[k] == (if w@[k] == ',' {
                    '|'
                } else {
                    w@[k]
                }),
        decreases n - i,
    {
        let c = w.get_char(i);
        if c == ',' {
            proof {
                reveal_strlit("|");
            }
            out.append("|");
        } else {
            let piece = w.substring_char(i, i + 1);
            out.append(piece);
        }
        i = i + 1;
    }
    proof {
        assert(out@ =~= bar_join(w@));
    }
    out
}

/// Whether `regex::Regex::new` accepts `pattern`: true exactly of the
/// syntactically valid patterns (within the compiler's default size limits).
pub uninterp spec fn regex_valid(pattern: Seq<char>) -> bool;

/// Whether the regular expression `pattern` matches anywhere in `text`, as
/// `regex::Regex::is_match` decides it. The outcome is a function of the
/// pattern and the text alone.
pub uninterp spec fn regex_matches(pattern: Seq<char>, text: Seq<char>) -> bool;

#[verifier::external_type_specification]
#[verifier::external_body]
pub struct ExRegex(regex::Regex);

/// Relies on `regex::Regex::new`: it compiles `pattern` and returns `Ok`
/// exactly when the pattern is acceptable; the error is rendered to text.
#[verifier::external_body]
fn regex_new(pattern: &str) -> (r: Result<regex::Regex, String>)
    ensures
        r is Ok <==> regex_valid(pattern@),
{
    regex::Regex::new(pattern).map_err(|e| format!("{}", e))
}

/// The error of building a fix pattern: the pattern was not a valid regular
/// expression.
#[derive(Debug)]
pub struct PatternError {
    /// The message of the underlying syntax error, rendered to text.
    pub message: String,
}

/// A compiled fix pattern. `regex` is always the compiled form of `pattern`:
/// the fields are private and `FixPattern::new` is the only constructor.
pub struct FixPattern {
    regex: regex::Regex,
    pattern: String,
}

impl FixPattern {
    /// The pattern string this classifier was built from.
    pub closed spec fn pattern_spec(&self) -> Seq<char> {
        self.pattern@
    }

    /// Compile `pattern` into a classifier.
    pub fn new(pattern: String) -> (r: Result<FixPattern, PatternError>)
        ensures
            r is Ok <==> regex_valid(pattern@),
            r matches Ok(p) ==> p.pattern_spec() == pattern@,
    {
        match regex_new(pattern.as_str()) {
            Ok(re) => Ok(FixPattern { regex: re, pattern }),
            Err(message) => Err(PatternError { message }),
        }
    }

    /// The pattern string, for display and for callers that built the
    /// pattern from configuration.
    pub fn as_str(&self) -> (r: &str)
        ensures
            r@ == self.pattern_spec(),
    {
        self.pattern.as_str()
    }

    /// Relies on `regex::Regex::is_match`: true exactly when the pattern
    /// matches anywhere in `text`. Sound because `regex` is the compiled
    /// form of `pattern` (see the type's invariant above).
    #[verifier::external_body]
    pub(crate) fn is_match(&self, text: &str) -> (r: bool)
        ensures
            r == regex_matches(self.pattern_spec(), text@),
    {
        self.regex.is_match(text)
    }
}

/// The pattern string a run classifies with: the word list joined with
/// alternation bars when one is configured, else the explicit pattern,
/// else the built-in default.
pub open spec fn chosen_pattern(args: Opts) -> Seq<char> {
    if args.words is Some {
        bar_join(args.words->Some_0@)
    } else if args.regex is Some {
        args.regex->Some_0@
    } else {
        DEFAULT_PATTERN@
    }
}

/// The built-in default: fix, fixes, fixed, close, closes or closed, as a
/// substring of the message line.
pub const DEFAULT_PATTERN: &'static str = "(fix(es|ed)?|close([sd])?)";

/// Build the fix pattern of a run from its options, trying the word list
/// first, then the explicit pattern, then the built-in default.
pub fn reg(args: &Opts) -> (r: Result<FixPattern, PatternError>)
    ensures
        r is Ok <==> regex_valid(chosen_pattern(*args)),
        r matches Ok(p) ==> p.pattern_spec() == chosen_pattern(*args),
{
    match reg_from_words(args) {
        Some(joined) => FixPattern::new(joined),
        None => match &args.regex {
            Some(r) => FixPattern::new(r.clone()),
            None => FixPattern::new(DEFAULT_PATTERN.to_owned()),
        },
    }
}

/// The word-list pattern of a run: `Some` exactly when a word list was
/// configured, and then the words joined with the alternation bar.
pub fn reg_from_words(args: &Opts) -> (r: Option<String>)
    ensures
        r is Some <==> args.words is Some,
        r matches Some(p) ==> args.words matches Some(w) && p@ == bar_join(w@),
{
    match &args.words {
        Some(w) => Some(replace_commas(w.as_str())),
        None => None,
    }
}

} // verus!
