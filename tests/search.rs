use minigrep::{search, search_case_insensitive};

#[test]
fn case_sensitive() {
    let query = "duct";
    let contents = "\
Rust:
safe, fast, productive.
Pick three.
Duct tape.";

    assert_eq!(vec!["safe, fast, productive."], search(query, contents));
}

#[test]
fn case_insensitive() {
    let query = "rUsT";
    let contents = "\
Rust:
safe, fast, productive.
Pick three.
Trust me.";

    assert_eq!(
        vec!["Rust:", "Trust me."],
        search_case_insensitive(query, contents)
    );
}

#[test]
fn results_are_lines_containing_query_in_order() {
    let contents = "one fish\ntwo fish\nred\nblue fish\nred";
    assert_eq!(vec!["one fish", "two fish", "blue fish"], search("fish", contents));
    assert_eq!(vec!["red", "red"], search("red", contents));
}

#[test]
fn results_point_into_contents() {
    let contents = String::from("alpha\nbeta\ngamma");
    let found = search("et", &contents);
    assert_eq!(found, vec!["beta"]);
    let start = contents.as_ptr() as usize;
    let at = found[0].as_ptr() as usize;
    assert_eq!(at - start, 6);
}

#[test]
fn insensitive_returns_original_text() {
    let contents = "HELLO world\nnothing here\nhElLo again";
    assert_eq!(
        vec!["HELLO world", "hElLo again"],
        search_case_insensitive("Hello", contents)
    );
    assert_eq!(Vec::<&str>::new(), search("Hello", contents));
}

#[test]
fn insensitive_lowercases_non_ascii() {
    let contents = "ÄPFEL\nbirnen\näpfel";
    assert_eq!(vec!["ÄPFEL", "äpfel"], search_case_insensitive("äPFEL", contents));
}

#[test]
fn search_twice_gives_same_result() {
    let contents = "a line\nanother line\nnothing";
    assert_eq!(search("line", contents), search("line", contents));
    assert_eq!(
        search_case_insensitive("LINE", contents),
        search_case_insensitive("LINE", contents)
    );
}

#[test]
fn empty_query_matches_every_line() {
    let contents = "first\n\nthird\n";
    assert_eq!(vec!["first", "", "third"], search("", contents));
    assert_eq!(vec!["first", "", "third"], search_case_insensitive("", contents));
}

#[test]
fn empty_contents_match_nothing() {
    assert_eq!(Vec::<&str>::new(), search("x", ""));
    assert_eq!(Vec::<&str>::new(), search("", ""));
    assert_eq!(Vec::<&str>::new(), search_case_insensitive("x", ""));
}

#[test]
fn long_query_matches_nothing() {
    assert_eq!(Vec::<&str>::new(), search("longer than any line", "short\nlines\nonly"));
}

#[test]
fn query_spanning_lines_matches_nothing() {
    assert_eq!(Vec::<&str>::new(), search("a\nb", "a\nb"));
}

#[test]
fn carriage_return_before_newline_ends_line() {
    let contents = "Rust:\r\nsafe, fast, productive.\r\nPick three.\r\nDuct tape.";
    assert_eq!(vec!["safe, fast, productive."], search("duct", contents));
    assert_eq!(vec!["Pick three."], search("three.", contents));
}
