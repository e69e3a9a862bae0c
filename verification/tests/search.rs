use minigrep::{run_search, search, search_case_insensitive, Config};

#[test]
fn case_sensitive() {
    let query = "duct";
    let contents = "\
          Rust:
          safe, fast, productive.
          Pick three.
          Duct tape.";

    assert_eq!(vec!["safe, fast, productive.".to_string()], search(query, contents))
}

#[test]
fn case_insensitive() {
    let query = "rUsT";
    let contents = "\
          Rust:
          safe, fast, productive.
          Pick three.
          Trust me.";

    assert_eq!(
        vec!["Rust:".to_string(), "Trust me.".to_string()],
        search_case_insensitive(query, contents)
    )
}

#[test]
fn productive_query_case_sensitive() {
    let contents = "Rust:\nsafe, fast, productive.\nPick three.\nDuct tape.";
    assert_eq!(
        vec!["safe, fast, productive.".to_string()],
        search("productive", contents)
    );
}

#[test]
fn upper_case_query_case_insensitive() {
    let contents = "Rust:\nsafe, fast, productive.\nPick three.\nDuct tape.";
    assert_eq!(vec!["Rust:".to_string()], search_case_insensitive("RUST", contents));
}

#[test]
fn empty_query_returns_every_trimmed_line() {
    let contents = "  Rust:\nsafe, fast, productive.  \n\tPick three.\nDuct tape.";
    assert_eq!(
        vec![
            "Rust:".to_string(),
            "safe, fast, productive.".to_string(),
            "Pick three.".to_string(),
            "Duct tape.".to_string(),
        ],
        search("", contents)
    );
}

#[test]
fn case_swap_leaves_insensitive_match_unchanged() {
    let contents = "Rust:\nsafe, fast, productive.\nPick three.\nTrust me.";
    let expected = vec!["Rust:".to_string(), "Trust me.".to_string()];
    assert_eq!(expected, search_case_insensitive("rust", contents));
    assert_eq!(expected, search_case_insensitive("rUsT", contents));
    assert_eq!(expected, search_case_insensitive("RUST", contents));
    let swapped_lines = "rUST:\nsafe, fast, productive.\nPick three.\nTRust me.";
    assert_eq!(
        vec!["rUST:".to_string(), "TRust me.".to_string()],
        search_case_insensitive("rust", swapped_lines)
    );
}

#[test]
fn repeated_search_gives_identical_results() {
    let contents = "alpha\nbeta\ngamma\nalphabet";
    let first = search("alpha", contents);
    let second = search("alpha", contents);
    assert_eq!(first, second);
    let first_ci = search_case_insensitive("ALPHA", contents);
    let second_ci = search_case_insensitive("ALPHA", contents);
    assert_eq!(first_ci, second_ci);
}

#[test]
fn line_with_repeated_occurrences_appears_once() {
    let contents = "banana\nberry";
    assert_eq!(vec!["banana".to_string()], search("an", contents));
}

#[test]
fn carriage_returns_are_trimmed() {
    let contents = "alpha\r\nbeta\r\n";
    assert_eq!(
        vec!["alpha".to_string(), "beta".to_string()],
        search("", contents)
    );
}

#[test]
fn trailing_newline_opens_no_extra_line() {
    assert_eq!(vec!["a".to_string()], search("", "a\n"));
    assert_eq!(vec!["a".to_string(), "".to_string()], search("", "a\n\n"));
}

#[test]
fn empty_content_has_no_matches() {
    assert_eq!(Vec::<String>::new(), search("x", ""));
    assert_eq!(Vec::<String>::new(), search("", ""));
}

#[test]
fn no_match_returns_nothing() {
    assert_eq!(Vec::<String>::new(), search("zebra", "alpha\nbeta"));
    assert_eq!(Vec::<String>::new(), search_case_insensitive("zebra", "alpha\nbeta"));
}

#[test]
fn run_search_follows_case_policy() {
    let contents = "Rust:\nTrust me.";
    let sensitive = Config {
        query: "rust".to_string(),
        file_paths: vec!["a.txt".to_string()],
        ignore_case: false,
    };
    assert_eq!(vec!["Trust me.".to_string()], run_search(&sensitive, contents));
    let insensitive = Config {
        query: "rust".to_string(),
        file_paths: vec!["a.txt".to_string()],
        ignore_case: true,
    };
    assert_eq!(
        vec!["Rust:".to_string(), "Trust me.".to_string()],
        run_search(&insensitive, contents)
    );
}

#[test]
fn build_requires_a_query() {
    let args = vec!["prog".to_string()];
    assert_eq!(Err("Specify a query string"), Config::build(args, false).map(|_| ()));
}

#[test]
fn build_requires_a_file_path() {
    let args = vec!["prog".to_string(), "query".to_string()];
    assert_eq!(
        Err("Specify at least one file path."),
        Config::build(args, false).map(|_| ())
    );
}

#[test]
fn build_searches_the_first_path_last() {
    let args = vec![
        "prog".to_string(),
        "query".to_string(),
        "first.txt".to_string(),
        "second.txt".to_string(),
        "third.txt".to_string(),
    ];
    let config = match Config::build(args, true) {
        Ok(c) => c,
        Err(e) => panic!("unexpected error: {e}"),
    };
    assert_eq!("query", config.query);
    assert!(config.ignore_case);
    assert_eq!(
        vec![
            "second.txt".to_string(),
            "third.txt".to_string(),
            "first.txt".to_string(),
        ],
        config.file_paths
    );
}
