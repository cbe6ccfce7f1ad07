//! Bugspots: rank the files of a repository by how often and how recently
//! bug-fix commits touched them.
//!
//! The crate holds the verified core of the pipeline: building the fix
//! pattern, classifying commit messages, extracting the changed files of a
//! fix, turning fixes into per-file scores, and ranking the result. Reading
//! the repository, sampling the clock and the floating-point decay curve
//! live with the caller, which hands plain values in and takes plain values
//! back.

mod fix;
mod options;
mod pattern;
mod rank;
mod score;

pub use rank::lemma_rank_deterministic;
pub use rank::lex_le;
pub use rank::rank;
pub use rank::same_ranking;
pub use rank::sorted;
pub use rank::spot_le;

pub use score::accumulate_scores;
pub use score::contains_file;
pub use score::lemma_score_monotonic;
pub use score::occ_prefix;
pub use score::occurrences;
pub use score::score_prefix;
pub use score::scoring_inputs;
pub use score::sum_files;
pub use score::sum_files_prefix;
pub use score::total_score;
pub use score::touched;
pub use score::unique_files;
pub use score::Recency;
pub use score::Spot;
pub use score::MAX_TIME;
pub use score::WEIGHT_ONE;

pub use fix::build_fix;
pub use fix::changed_files;
pub use fix::classify;
pub use fix::first_line;
pub use fix::first_line_of;
pub use fix::first_newline;
pub use fix::kept_path;
pub use fix::Fix;

pub use options::Opts;
pub use pattern::bar_join;
pub use pattern::chosen_pattern;
pub use pattern::reg;
pub use pattern::reg_from_words;
pub use pattern::regex_matches;
pub use pattern::regex_valid;
pub use pattern::FixPattern;
pub use pattern::PatternError;
pub use pattern::DEFAULT_PATTERN;
