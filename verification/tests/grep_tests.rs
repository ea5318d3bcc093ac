use workshop::grep::find_matches;
use workshop::grep::grep_lines;
use workshop::grep::search;
use workshop::grep::search_case_insensitive;
use workshop::grep::Config;

#[test]
fn lib_find_a_match() {
    let result = find_matches("lorem ipsum\ndolor sit amet", "lorem");
    assert_eq!(result.as_bytes(), b"lorem ipsum\n");
}

#[test]
fn main_find_a_match() {
    let result = find_matches("lorem ipsum\ndolor sit amet", "lorem");
    assert_eq!(result.as_bytes(), b"lorem ipsum\n");
}

#[test]
fn find_matches_with_empty_pattern_keeps_every_line() {
    let result = find_matches("A test\nAnother test", "");
    assert_eq!(result, "A test\nAnother test\n");
}

#[test]
fn config_new_parses_args() {
    let config = Config::new(&[
        "bin".to_owned(),
        "pattern".to_owned(),
        "filename".to_owned(),
    ])
    .unwrap();
    assert_eq!(config.query, "pattern");
    assert_eq!(config.filename, "filename");
}

#[test]
#[should_panic]
fn config_new_fails_on_not_enough_args() {
    let _ = Config::new(&["bin".to_owned()]).unwrap();
}

#[test]
fn config_new_reports_missing_arguments() {
    let err = Config::new(&["bin".to_owned()]).unwrap_err();
    assert_eq!(err, "not enough arguments");
}

#[test]
fn search_is_case_sensitive() {
    let query = "duct";
    let contents = "\
Rust:
safe, fast, productive
Pick three.
Duct tape.";

    assert_eq!(vec!["safe, fast, productive"], search(query, contents));
}

#[test]
fn search_returns_an_empty_result_when_no_matches() {
    let query = "unfindable";
    let contents = "\
All the lines
That can be found
here.";

    assert_eq!(Vec::new() as Vec<&str>, search(query, contents));
}

#[test]
fn search_case_insensitive_is_case_insensitive() {
    let query = "rUsT";
    let contents = "\
Rust:
safe, fast, productive.
Pick three.
Trust me.";

    assert_eq!(
        vec!["Rust:", "Trust me."],
        search_case_insensitive(query, contents)
    );
}

#[test]
fn grep_lines_dispatches_on_the_flag() {
    let contents = "Rust:\nTrust me.";
    let sensitive = Config {
        query: "Rust".to_string(),
        filename: String::new(),
        case_insensitive: true,
    };
    assert_eq!(vec!["Rust:"], grep_lines(&sensitive, contents));
    let folded = Config {
        query: "rust".to_string(),
        filename: String::new(),
        case_insensitive: false,
    };
    assert_eq!(vec!["Rust:", "Trust me."], grep_lines(&folded, contents));
}
