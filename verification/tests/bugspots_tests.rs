use bugspots::{
    accumulate_scores, build_fix, changed_files, classify, first_line, rank, reg, reg_from_words,
    scoring_inputs, Fix, Opts, Recency, Spot, WEIGHT_ONE,
};

fn opts_with(words: Option<&str>, regex: Option<&str>) -> Opts {
    Opts {
        repo: "".to_string(),
        branch: None,
        depth: None,
        words: words.map(|w| w.to_string()),
        regex: regex.map(|r| r.to_string()),
        display_timestamps: None,
    }
}

/// The decay weight of one fix, in fixed point, computed exactly as the
/// caller of the library computes it.
fn weight_scaled(recency: &Recency) -> u64 {
    let t: f64 = match recency {
        Recency::Saturated => 1.0,
        Recency::Ratio { elapsed, span } => 1.0 - (*elapsed as f64) / (*span as f64),
    };
    let w: f64 = 1.0 / (1.0 + (-12.0 * t + 12.0).exp());
    let scaled: u64 = (w * (WEIGHT_ONE as f64)) as u64;
    if scaled > WEIGHT_ONE {
        WEIGHT_ONE
    } else {
        scaled
    }
}

fn fix(message: &str, date: i64, files: &[&str]) -> Fix {
    Fix {
        message: message.to_string(),
        date,
        files: files.iter().map(|f| f.to_string()).collect(),
    }
}

#[test]
fn test_reg() {
    let ret = reg(&opts_with(Some("a,b,c"), None));
    assert_eq!(ret.unwrap().as_str(), "a|b|c");
}

#[test]
fn word_list_pattern_matches_each_word() {
    let pattern = reg(&opts_with(Some("a,b,c"), None)).unwrap();
    assert!(classify(&pattern, "a change").is_some());
    assert!(classify(&pattern, "b change").is_some());
    assert!(classify(&pattern, "c change").is_some());
    assert!(classify(&pattern, "zzz").is_none());
}

#[test]
fn word_list_takes_priority_over_explicit_pattern() {
    let pattern = reg(&opts_with(Some("one,two"), Some("three"))).unwrap();
    assert_eq!(pattern.as_str(), "one|two");
}

#[test]
fn explicit_pattern_is_used_verbatim() {
    let pattern = reg(&opts_with(None, Some("\\[fix\\]"))).unwrap();
    assert_eq!(pattern.as_str(), "\\[fix\\]");
    assert!(classify(&pattern, "[fix] correct overflow").is_some());
    assert!(classify(&pattern, "refactor loop").is_none());
}

#[test]
fn default_pattern_matches_fix_words() {
    let pattern = reg(&opts_with(None, None)).unwrap();
    assert_eq!(pattern.as_str(), "(fix(es|ed)?|close([sd])?)");
    assert!(classify(&pattern, "fix the bug").is_some());
    assert!(classify(&pattern, "fixes the bug").is_some());
    assert!(classify(&pattern, "fixed the bug").is_some());
    assert!(classify(&pattern, "close the issue").is_some());
    assert!(classify(&pattern, "closes the issue").is_some());
    assert!(classify(&pattern, "closed the issue").is_some());
    assert!(classify(&pattern, "add a feature").is_none());
}

#[test]
fn invalid_pattern_is_a_configuration_error() {
    let ret = reg(&opts_with(None, Some("(")));
    assert!(ret.is_err());
}

#[test]
fn reg_from_words_joins_with_bars() {
    let r = reg_from_words(&opts_with(Some("fixes,closed"), None));
    assert_eq!(r.unwrap(), "fixes|closed".to_string());
    assert!(reg_from_words(&opts_with(None, None)).is_none());
}

#[test]
fn classify_looks_at_the_first_line_only() {
    let pattern = reg(&opts_with(None, Some("bug"))).unwrap();
    assert!(classify(&pattern, "no defect here\nbug in the details").is_none());
    let line = classify(&pattern, "bug squashed\ndetails follow").unwrap();
    assert_eq!(line, "bug squashed".to_string());
}

#[test]
fn first_line_handles_line_endings() {
    assert_eq!(first_line("hello\nworld"), "hello".to_string());
    assert_eq!(first_line("hello\r\nworld"), "hello".to_string());
    assert_eq!(first_line("no newline"), "no newline".to_string());
    assert_eq!(first_line("trailing\r"), "trailing\r".to_string());
    assert_eq!(first_line(""), "".to_string());
    assert_eq!(first_line("\nrest"), "".to_string());
}

#[test]
fn changed_files_drops_empty_paths() {
    let paths = vec!["a.txt".to_string(), "".to_string(), "b.txt".to_string(), "".to_string()];
    let kept = changed_files(&paths);
    assert_eq!(kept, vec!["a.txt".to_string(), "b.txt".to_string()]);
}

#[test]
fn build_fix_assembles_the_record() {
    let paths = vec!["src/x.rs".to_string(), "".to_string()];
    let f = build_fix("fix: overflow".to_string(), 123, &paths);
    assert_eq!(f.message, "fix: overflow".to_string());
    assert_eq!(f.date, 123);
    assert_eq!(f.files, vec!["src/x.rs".to_string()]);
}

#[test]
fn empty_history_gives_empty_results() {
    let fixes: Vec<Fix> = Vec::new();
    let recencies = scoring_inputs(&fixes, 1_000_000);
    assert!(recencies.is_empty());
    let weights: Vec<u64> = Vec::new();
    let spots = accumulate_scores(&fixes, &weights).unwrap();
    assert!(spots.is_empty());
    let ranked = rank(spots);
    assert!(ranked.is_empty());
}

#[test]
fn scoring_inputs_reports_elapsed_and_span() {
    let fixes = vec![
        fix("newest", 900, &["b.txt"]),
        fix("middle", 600, &["a.txt", "b.txt"]),
        fix("oldest", 300, &["a.txt"]),
    ];
    let recencies = scoring_inputs(&fixes, 1000);
    assert_eq!(recencies.len(), 3);
    assert_eq!(recencies[0], Recency::Ratio { elapsed: 100, span: 700 });
    assert_eq!(recencies[1], Recency::Ratio { elapsed: 400, span: 700 });
    assert_eq!(recencies[2], Recency::Ratio { elapsed: 700, span: 700 });
}

#[test]
fn scoring_inputs_saturates_on_zero_span() {
    let fixes = vec![fix("only", 1000, &["a.txt"])];
    let recencies = scoring_inputs(&fixes, 1000);
    assert_eq!(recencies.len(), 1);
    assert_eq!(recencies[0], Recency::Saturated);
}

#[test]
fn accumulate_sums_weights_per_file() {
    let fixes = vec![
        fix("one", 900, &["b.txt"]),
        fix("two", 600, &["a.txt", "b.txt"]),
        fix("three", 300, &["a.txt"]),
    ];
    let weights: Vec<u64> = vec![700, 400, 100];
    let spots = accumulate_scores(&fixes, &weights).unwrap();
    assert_eq!(spots.len(), 2);
    let a = spots.iter().find(|s| s.file == "a.txt").unwrap();
    let b = spots.iter().find(|s| s.file == "b.txt").unwrap();
    assert_eq!(a.score, 400 + 100);
    assert_eq!(b.score, 700 + 400);
}

#[test]
fn accumulate_counts_duplicate_paths_twice() {
    let fixes = vec![fix("dup", 100, &["a.txt", "a.txt"])];
    let weights: Vec<u64> = vec![5];
    let spots = accumulate_scores(&fixes, &weights).unwrap();
    assert_eq!(spots.len(), 1);
    assert_eq!(spots[0].file, "a.txt");
    assert_eq!(spots[0].score, 10);
}

#[test]
fn another_fix_never_lowers_a_score() {
    let mut fixes = vec![fix("one", 200, &["p.txt"])];
    let mut weights: Vec<u64> = vec![300];
    let before: u64 = accumulate_scores(&fixes, &weights).unwrap()[0].score;
    fixes.push(fix("two", 100, &["p.txt"]));
    weights.push(250);
    let after: u64 = accumulate_scores(&fixes, &weights).unwrap()[0].score;
    assert!(after >= before);
    assert_eq!(after, before + 250);
}

#[test]
fn rank_sorts_by_descending_score() {
    let spots = vec![
        Spot { file: "low.txt".to_string(), score: 10 },
        Spot { file: "high.txt".to_string(), score: 500 },
        Spot { file: "mid.txt".to_string(), score: 60 },
    ];
    let ranked = rank(spots);
    assert_eq!(ranked[0].file, "high.txt");
    assert_eq!(ranked[1].file, "mid.txt");
    assert_eq!(ranked[2].file, "low.txt");
}

#[test]
fn rank_breaks_ties_by_path() {
    let spots = vec![
        Spot { file: "zeta.txt".to_string(), score: 50 },
        Spot { file: "alpha.txt".to_string(), score: 50 },
        Spot { file: "mu.txt".to_string(), score: 50 },
    ];
    let ranked = rank(spots);
    assert_eq!(ranked[0].file, "alpha.txt");
    assert_eq!(ranked[1].file, "mu.txt");
    assert_eq!(ranked[2].file, "zeta.txt");
}

#[test]
fn three_fixes_score_by_the_logistic_curve() {
    // Three fixes in traversal order, newest first; the earliest touched
    // a.txt, the middle both, the newest b.txt.
    let now: i64 = 1_000_000;
    let fixes = vec![
        fix("fix b", 900_000, &["b.txt"]),
        fix("fix a and b", 600_000, &["a.txt", "b.txt"]),
        fix("fix a", 300_000, &["a.txt"]),
    ];
    let recencies = scoring_inputs(&fixes, now);
    let weights: Vec<u64> = recencies.iter().map(weight_scaled).collect();

    // The exact fixed-point weights of the logistic curve at the three
    // normalized recencies 6/7, 3/7 and 0.
    let expected: Vec<u64> = [6.0 / 7.0, 3.0 / 7.0, 0.0]
        .iter()
        .map(|t| {
            let w: f64 = 1.0 / (1.0 + (-12.0 * t + 12.0f64).exp());
            (w * 1e9) as u64
        })
        .collect();
    assert_eq!(weights, expected);

    let spots = accumulate_scores(&fixes, &weights).unwrap();
    let ranked = rank(spots);
    assert_eq!(ranked.len(), 2);
    // b.txt gathered the newest and the middle fix, a.txt the middle and
    // the oldest: b.txt must rank first, both scores positive, distinct.
    assert_eq!(ranked[0].file, "b.txt");
    assert_eq!(ranked[0].score, expected[0] + expected[1]);
    assert_eq!(ranked[1].file, "a.txt");
    assert_eq!(ranked[1].score, expected[1] + expected[2]);
    assert!(ranked[0].score > ranked[1].score);
    assert!(ranked[1].score > 0);
}

#[test]
fn saturated_recency_weighs_half() {
    // With a single fix dated at the scan time, recency saturates at one
    // and the logistic curve gives exactly one half.
    let fixes = vec![fix("only", 1000, &["a.txt"])];
    let recencies = scoring_inputs(&fixes, 1000);
    let weights: Vec<u64> = recencies.iter().map(weight_scaled).collect();
    assert_eq!(weights, vec![WEIGHT_ONE / 2]);
    let spots = accumulate_scores(&fixes, &weights).unwrap();
    assert_eq!(spots[0].score, WEIGHT_ONE / 2);
}
