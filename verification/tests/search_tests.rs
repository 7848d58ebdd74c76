use minigrep::search;
use minigrep::split_chunks;
use minigrep::split_lines;
use minigrep::whole_file_output;

#[test]
fn case_sensitive_one_match() {
    let content = "Rust:\nsafe, fast, productive.\nPick three.\nDuct Tape";
    let result = search("duct", content, true);
    assert_eq!(result, vec!["safe, fast, productive."]);
}

#[test]
fn case_insensitive_two_matches() {
    let content = "Rust:\nsafe, fast, productive.\nPick three.\nTrust me.";
    let result = search("ruST", content, false);
    assert_eq!(result, vec!["Rust:", "Trust me."]);
}

#[test]
fn case_sensitive_keeps_exactly_the_containing_lines() {
    let content = "one\ntwo\nnone\nbone";
    let result = search("ne", content, true);
    assert_eq!(result, vec!["one", "none", "bone"]);
}

#[test]
fn case_insensitive_is_a_superset() {
    let content = "Rust:\nsafe, fast, productive.\nTrust me.\nRUST RUST";
    let query = "rust";
    let sensitive = search(query, content, true);
    let insensitive = search(query, content, false);
    assert!(insensitive.len() >= sensitive.len());
    for line in &sensitive {
        assert!(insensitive.contains(line));
    }
}

#[test]
fn case_insensitive_invariant_under_query_recasing() {
    let content = "Rust:\nsafe, fast, productive.\nTrust me.";
    assert_eq!(
        search("RUST", content, false),
        search("rust", content, false)
    );
    assert_eq!(
        search("rUsT", content, false),
        search("rust", content, false)
    );
}

#[test]
fn search_is_idempotent() {
    let content = "alpha\nbeta\ngamma\nbeta again";
    let first = search("beta", content, true);
    let second = search("beta", content, true);
    assert_eq!(first, second);
}

#[test]
fn streaming_chunks_match_whole_file() {
    let content = "Rust:\nsafe, fast, productive.\nPick three.\nTrust me.";
    let whole = search("t", content, true);
    let mut streamed: Vec<&str> = Vec::new();
    for chunk in split_chunks(content) {
        streamed.extend(search("t", chunk, true));
    }
    assert_eq!(streamed, whole);
}

#[test]
fn streaming_three_lines_one_match() {
    let content = "first line\nmatch me\nthird line\n";
    let chunks = split_chunks(content);
    assert_eq!(chunks.len(), 3);
    let mut printed: Vec<&str> = Vec::new();
    for chunk in &chunks {
        printed.extend(search("match", chunk, true));
    }
    assert_eq!(printed, vec!["match me"]);
}

#[test]
fn whole_file_no_match_prints_one_indicator() {
    let content = "alpha\nbeta";
    let output = whole_file_output("gamma", content, true);
    assert_eq!(output, vec!["No matches found."]);
}

#[test]
fn whole_file_with_matches_prints_only_them() {
    let content = "alpha\nbeta\nalpine";
    let output = whole_file_output("alp", content, true);
    assert_eq!(output, vec!["alpha", "alpine"]);
}

#[test]
fn folding_reaches_both_sides() {
    assert_eq!(search("A", "a", false), vec!["a"]);
    assert_eq!(search("a", "A", false), vec!["A"]);
    assert_eq!(search("\u{c9}", "\u{e9}t\u{e9}", false), vec!["\u{e9}t\u{e9}"]);
}

#[test]
fn empty_query_matches_every_line() {
    let content = "a\nb";
    assert_eq!(search("", content, true), vec!["a", "b"]);
}

#[test]
fn empty_content_matches_nothing() {
    let result = search("a", "", true);
    assert!(result.is_empty());
}

#[test]
fn split_lines_drops_terminators() {
    assert_eq!(split_lines("a\nb\nc"), vec!["a", "b", "c"]);
    assert_eq!(split_lines("a\nb\n"), vec!["a", "b"]);
    assert_eq!(split_lines("a\r\nb"), vec!["a", "b"]);
    assert_eq!(split_lines("\n"), vec![""]);
    assert_eq!(split_lines("a\r"), vec!["a\r"]);
    assert!(split_lines("").is_empty());
}

#[test]
fn split_chunks_keeps_terminators() {
    assert_eq!(split_chunks("a\nb"), vec!["a\n", "b"]);
    assert_eq!(split_chunks("a\nb\n"), vec!["a\n", "b\n"]);
    assert!(split_chunks("").is_empty());
}

#[test]
fn split_lines_agrees_with_standard_line_splitting() {
    let samples = ["", "x", "x\ny", "x\r\ny\r\n", "\n\n", "tail\r"];
    for content in samples {
        let ours = split_lines(content);
        let std_lines: Vec<&str> = content.lines().collect();
        assert_eq!(ours, std_lines);
    }
}
