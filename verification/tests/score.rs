use fuzzy_matcher::FuzzyMatcher;
use scotty::index::Index;
use scotty::score::{max_score, pick_best, retain_ties, score_of, score_results, Score};
use scotty::timestamp::Timestamp;
use tempfile::tempdir;

fn get_temporary_index() -> Index {
    let db_config = sled::Config::new().temporary(true);
    Index::open(db_config).unwrap()
}

fn candidate(path: &str, score: i64, timestamp: Option<Timestamp>) -> Score {
    Score {
        path: path.to_owned(),
        score,
        timestamp,
    }
}

#[test]
fn score_result_equal_length() {
    let input = vec!["foo".to_owned(), "bar".to_owned()];
    let pattern = "abc";

    let result = score_results(&input, pattern);

    assert_eq!(result.len(), input.len())
}

#[test]
fn score_result_empty_input() {
    let input = Vec::<String>::new();
    let pattern = "abc";

    let result = score_results(&input, pattern);

    assert!(result.is_empty())
}

#[test]
fn get_best_score_empty_input() {
    let index = get_temporary_index();
    let input = vec![];

    assert!(index.get_best_score(input).unwrap().is_none())
}

#[test]
fn get_best_score_single_result() {
    let index = get_temporary_index();
    let input = vec![Score {
        path: String::from("/foo"),
        score: 20,
        timestamp: None,
    }];
    let expected = Some(Score {
        path: String::from("/foo"),
        score: 20,
        timestamp: None,
    });

    assert_eq!(index.get_best_score(input).unwrap(), expected)
}

#[test]
fn get_best_score_clear_winner() {
    let index = get_temporary_index();
    let input = vec![
        Score {
            path: String::from("/foo"),
            score: 20,
            timestamp: None,
        },
        Score {
            path: String::from("/bar"),
            score: 135,
            timestamp: None,
        },
        Score {
            path: String::from("/baz"),
            score: 1,
            timestamp: None,
        },
    ];
    let expected = Some(Score {
        path: String::from("/bar"),
        score: 135,
        timestamp: None,
    });

    assert_eq!(index.get_best_score(input).unwrap(), expected)
}

#[test]
fn get_best_score_timestamp_tiebreaker() {
    let mut index = get_temporary_index();
    let input_dirs = vec![tempdir().unwrap(), tempdir().unwrap(), tempdir().unwrap()];
    let input = vec![
        Score {
            path: input_dirs[0].path().to_str().unwrap().to_owned(),
            score: 20,
            timestamp: None,
        },
        Score {
            path: input_dirs[1].path().to_str().unwrap().to_owned(),
            score: 20,
            timestamp: None,
        },
        Score {
            path: input_dirs[2].path().to_str().unwrap().to_owned(),
            score: 1,
            timestamp: None,
        },
    ];
    for score in input.iter() {
        index.add(&score.path).unwrap();
    }
    let expected = Score {
        path: input[1].path.clone(),
        score: input[1].score,
        timestamp: None,
    };

    let result = index.get_best_score(input).unwrap();
    assert!(result.is_some());
    let result_score = result.unwrap();
    assert_eq!(result_score.score, expected.score);
    assert_eq!(result_score.path, expected.path);

    for pb in input_dirs {
        pb.close().unwrap();
    }
}

#[test]
fn get_best_score_timestamp_tiebreaker_none() {
    let mut index = get_temporary_index();
    let input_dirs = vec![tempdir().unwrap(), tempdir().unwrap(), tempdir().unwrap()];
    let input = vec![
        Score {
            path: input_dirs[0].path().to_str().unwrap().to_owned(),
            score: 20,
            timestamp: None,
        },
        Score {
            path: input_dirs[1].path().to_str().unwrap().to_owned(),
            score: 20,
            timestamp: None,
        },
        Score {
            path: input_dirs[2].path().to_str().unwrap().to_owned(),
            score: 1,
            timestamp: None,
        },
    ];
    index.add(&input.first().unwrap().path).unwrap();
    let expected = Score {
        path: input[0].path.clone(),
        score: input[0].score,
        timestamp: None,
    };

    let result = index.get_best_score(input).unwrap();
    assert!(result.is_some());
    let result_score = result.unwrap();
    assert_eq!(result_score.score, expected.score);
    assert_eq!(result_score.path, expected.path);

    for pb in input_dirs {
        pb.close().unwrap();
    }
}

#[test]
fn score_results_scores_as_the_fuzzy_matcher_does() {
    let matcher = fuzzy_matcher::clangd::ClangdMatcher::default();
    let input = vec![
        "/home/user/projectfoo".to_owned(),
        "/home/user/other".to_owned(),
        "/PROJECTFOO".to_owned(),
    ];
    let pattern = "projectfoo";

    let result = score_results(&input, pattern);

    assert_eq!(result.len(), 3);
    for (candidate, path) in result.iter().zip(input.iter()) {
        assert_eq!(&candidate.path, path);
        assert_eq!(candidate.timestamp, None);
        assert_eq!(
            candidate.score,
            matcher.fuzzy_match(path, pattern).unwrap_or_default()
        );
    }
    assert!(result[0].score > 0);
    assert_eq!(result[1].score, 0);
    assert!(result[2].score > 0);
    assert_ne!(result[0].score, result[1].score)
}

#[test]
fn score_of_counts_no_match_as_zero() {
    assert_eq!(score_of(None), 0);
    assert_eq!(score_of(Some(17)), 17);
    assert_eq!(score_of(Some(-4)), -4)
}

#[test]
fn max_score_and_ties() {
    let input = vec![
        candidate("/a", 3, None),
        candidate("/b", 9, None),
        candidate("/c", -2, None),
        candidate("/d", 9, None),
    ];

    assert_eq!(max_score(&input), 9);
    assert_eq!(
        retain_ties(&input, 9),
        vec![candidate("/b", 9, None), candidate("/d", 9, None)]
    );
    assert_eq!(retain_ties(&input, 4), vec![])
}

#[test]
fn pick_best_orders_by_score_then_time_then_path() {
    let early = Timestamp::new(10, 5).unwrap();
    let late = Timestamp::new(10, 6).unwrap();

    assert_eq!(pick_best(vec![]), None);
    assert_eq!(
        pick_best(vec![
            candidate("/z", 1, Some(late)),
            candidate("/a", 2, None)
        ]),
        Some(candidate("/a", 2, None))
    );
    assert_eq!(
        pick_best(vec![
            candidate("/z", 2, None),
            candidate("/a", 2, Some(early))
        ]),
        Some(candidate("/a", 2, Some(early)))
    );
    assert_eq!(
        pick_best(vec![
            candidate("/late", 2, Some(late)),
            candidate("/z", 2, Some(early))
        ]),
        Some(candidate("/late", 2, Some(late)))
    );
    assert_eq!(
        pick_best(vec![
            candidate("/a-b", 2, Some(late)),
            candidate("/a/b", 2, Some(late)),
            candidate("/a", 2, Some(late))
        ]),
        Some(candidate("/a/b", 2, Some(late)))
    )
}

#[test]
fn get_best_score_single_top_keeps_the_given_time() {
    let index = get_temporary_index();
    let given = Timestamp::new(77, 1).unwrap();
    let input = vec![
        candidate("/foo", 20, Some(given)),
        candidate("/bar", 19, None),
    ];

    assert_eq!(
        index.get_best_score(input).unwrap(),
        Some(candidate("/foo", 20, Some(given)))
    )
}
