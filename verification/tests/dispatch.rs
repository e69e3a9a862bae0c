use minigrep::{
    dispatch, emit_fan_out, execute, render_block, render_single, Config, RunError, SearchResult,
};

fn config(query: &str, paths: &[&str], ignore_case: bool) -> Config {
    Config {
        query: query.to_string(),
        file_paths: paths.iter().map(|p| p.to_string()).collect(),
        ignore_case,
    }
}

#[test]
fn execute_searches_readable_contents() {
    let c = config("ust", &["a.txt"], false);
    let r = execute(
        "a.txt".to_string(),
        Ok("Rust:\nTrust me.\nnothing".to_string()),
        &c,
    );
    assert_eq!("a.txt", r.path);
    assert_eq!(
        Ok(vec!["Rust:".to_string(), "Trust me.".to_string()]),
        r.outcome
    );
}

#[test]
fn execute_keeps_the_failure_cause() {
    let c = config("ust", &["a.txt"], false);
    let r = execute("a.txt".to_string(), Err("not found".to_string()), &c);
    assert_eq!("a.txt", r.path);
    assert_eq!(Err("not found".to_string()), r.outcome);
}

#[test]
fn render_single_prints_bare_lines() {
    let lines = vec!["alpha".to_string(), "beta".to_string()];
    assert_eq!("alpha\nbeta\n", render_single(&lines));
    assert_eq!("", render_single(&Vec::new()));
}

#[test]
fn render_block_prints_header_then_lines() {
    let r = SearchResult {
        path: "a.txt".to_string(),
        outcome: Ok(vec!["alpha".to_string(), "beta".to_string()]),
    };
    assert_eq!("\n[a.txt]: \nalpha\nbeta\n", render_block(&r));
}

#[test]
fn render_block_prints_failure_message() {
    let r = SearchResult {
        path: "b.txt".to_string(),
        outcome: Err("not found".to_string()),
    };
    assert_eq!("\nError when reading 'b.txt': not found\n", render_block(&r));
}

#[test]
fn fan_out_blocks_keep_submission_order() {
    let a = SearchResult {
        path: "a.txt".to_string(),
        outcome: Ok(vec!["one".to_string()]),
    };
    let b = SearchResult {
        path: "b.txt".to_string(),
        outcome: Ok(vec!["two".to_string()]),
    };
    let c = SearchResult {
        path: "c.txt".to_string(),
        outcome: Ok(vec!["three".to_string()]),
    };
    let out = emit_fan_out(&vec![a, b, c]);
    assert_eq!(
        "\n[a.txt]: \none\n\n[b.txt]: \ntwo\n\n[c.txt]: \nthree\n",
        out
    );
    let pos_a = out.find("[a.txt]").unwrap();
    let pos_b = out.find("[b.txt]").unwrap();
    let pos_c = out.find("[c.txt]").unwrap();
    assert!(pos_a < pos_b && pos_b < pos_c);
}

#[test]
fn three_targets_one_failure_is_isolated() {
    let c = config("ust", &["a.txt", "b.txt", "c.txt"], false);
    let reads = vec![
        Ok("Rust:\nTrust me.".to_string()),
        Err("not found".to_string()),
        Ok("crust\nnone here".to_string()),
    ];
    let out = match dispatch(&c, reads) {
        Ok(out) => out,
        Err(_) => panic!("a fan-out run must succeed despite one failed read"),
    };
    assert_eq!(
        "\n[a.txt]: \nRust:\nTrust me.\n\
         \nError when reading 'b.txt': not found\n\
         \n[c.txt]: \ncrust\n",
        out
    );
}

#[test]
fn single_target_read_failure_is_fatal() {
    let c = config("ust", &["b.txt"], false);
    let r = dispatch(&c, vec![Err("not found".to_string())]);
    assert!(matches!(r, Err(RunError::FatalRead(ref cause)) if cause == "not found"));
}

#[test]
fn single_target_prints_bare_lines() {
    let c = config("ust", &["a.txt"], false);
    let r = dispatch(&c, vec![Ok("Rust:\nnothing\nTrust me.".to_string())]);
    assert_eq!(Some("Rust:\nTrust me.\n".to_string()), r.ok());
}

#[test]
fn zero_targets_are_a_configuration_error() {
    let c = config("ust", &[], false);
    let r = dispatch(&c, Vec::new());
    assert!(matches!(r, Err(RunError::NoTargets)));
}
