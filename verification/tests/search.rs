use minigrep::{contains, search, search_case_insensitive, split_first_line};

fn expected(query: &str, contents: &str) -> Vec<String> {
    contents
        .lines()
        .filter(|line| line.contains(query))
        .map(String::from)
        .collect()
}

fn fold(text: &str) -> String {
    text.chars().flat_map(char::to_lowercase).collect()
}

fn expected_ignoring_case(query: &str, contents: &str) -> Vec<String> {
    contents
        .lines()
        .filter(|line| fold(line).contains(&fold(query)))
        .map(String::from)
        .collect()
}

const TEXTS: [&str; 19] = [
    "\u{391}\u{3a3}\u{391}\n\u{391}\u{3a3}\n\u{3a3}",
    "\u{130}stanbul\nISTANBUL\nistanbul",
    "Stra\u{df}e\nSTRASSE\n\u{1e9e}",
    "",
    "\n",
    "\r\n",
    "\r",
    "a",
    "a\n",
    "a\r",
    "a\r\n",
    "a\r\r\n",
    "\n\n",
    "a\n\nb",
    "one\ntwo\r\nthree\rfour\n",
    "Rust:\nsafe, fast, productive.\nPick three.\nDuct tape.",
    "naïve café\nÉCOLE\r\nécole\nσίσυφος ΣΊΣΥΦΟΣ\n日本語\n",
    "x\u{85}y\u{2028}z\n\u{0a0a}\nend",
    "tab\there\n  spaces  \n\n\nlast",
];

const QUERIES: [&str; 17] = [
    "",
    "a",
    "A",
    "e",
    "É",
    "é",
    "\r",
    "th",
    "école",
    "Σ",
    "本",
    "\u{0a0a}",
    "\u{391}\u{3a3}",
    "\u{3c2}",
    "\u{3c3}",
    "I",
    "SS",
];

#[test]
fn case_sensitive() {
    let query = "duct";
    let contents = "\
Rust:
safe, fast, productive.
Pick three.
Duct tape.";

    assert_eq!(vec!["safe, fast, productive."], search(query, contents))
}

#[test]
fn case_insensitive() {
    let query = "rUsT";
    let contents = "\
Rust:
safe, fast, productive.
Pick three.
Trust me.";

    assert_eq!(
        vec!["Rust:", "Trust me."],
        search_case_insensitive(query, contents)
    )
}

#[test]
fn search_agrees_with_lines_and_contains_of_std() {
    for contents in TEXTS {
        for query in QUERIES {
            assert_eq!(
                search(query, contents),
                expected(query, contents),
                "query {query:?} in {contents:?}"
            );
        }
    }
}

#[test]
fn search_ignoring_case_agrees_with_folding_each_character() {
    for contents in TEXTS {
        for query in QUERIES {
            assert_eq!(
                search_case_insensitive(query, contents),
                expected_ignoring_case(query, contents),
                "query {query:?} in {contents:?}"
            );
        }
    }
}

#[test]
fn every_line_found_contains_the_query() {
    let contents = "alpha\nbeta\ngamma\ndelta\nalphabet";
    let found = search("al", contents);
    assert_eq!(found, vec!["alpha", "alphabet"]);
    for line in found {
        assert!(line.contains("al"));
    }
}

#[test]
fn lines_found_keep_the_order_of_the_contents() {
    let contents = "b1\na\nb2\na\nb3";
    assert_eq!(search("b", contents), vec!["b1", "b2", "b3"]);
    assert_eq!(search("a", contents), vec!["a", "a"]);
}

#[test]
fn a_repeated_line_is_found_as_often_as_it_stands() {
    assert_eq!(search("x", "x\ny\nx\nx"), vec!["x", "x", "x"]);
}

#[test]
fn empty_query_finds_every_line() {
    let contents = "one\n\ntwo\r\nthree";
    assert_eq!(search("", contents), vec!["one", "", "two", "three"]);
}

#[test]
fn empty_contents_have_no_lines() {
    assert!(search("", "").is_empty());
    assert!(search("a", "").is_empty());
    assert!(search_case_insensitive("", "").is_empty());
}

#[test]
fn no_match_finds_nothing() {
    assert!(search("zebra", "one\ntwo").is_empty());
    assert!(search_case_insensitive("zebra", "one\ntwo").is_empty());
}

#[test]
fn searching_twice_finds_the_same() {
    let contents = "Rust:\nTrust me.\nrusty\nother";
    assert_eq!(search("ust", contents), search("ust", contents));
    assert_eq!(
        search_case_insensitive("RUST", contents),
        search_case_insensitive("RUST", contents)
    );
}

#[test]
fn search_ignoring_case_returns_lines_in_their_own_case() {
    let contents = "HELLO World\nhello world\nbye";
    assert_eq!(
        search_case_insensitive("hello", contents),
        vec!["HELLO World", "hello world"]
    );
    assert_eq!(search("hello", contents), vec!["hello world"]);
}

#[test]
fn search_ignoring_case_lowercases_beyond_ascii() {
    assert_eq!(
        search_case_insensitive("école", "ÉCOLE\nEcole\nécole"),
        vec!["ÉCOLE", "école"]
    );
}

#[test]
fn capital_sigma_folds_the_same_wherever_it_stands() {
    let query = "\u{391}\u{3a3}";
    let contents = "\u{391}\u{3a3}\u{391}";
    assert_eq!(
        search_case_insensitive(query, contents),
        vec!["\u{391}\u{3a3}\u{391}"]
    );
    assert_eq!(
        search_case_insensitive("\u{3c3}", "\u{391}\u{3a3}\n\u{3a3}\u{391}"),
        vec!["\u{391}\u{3a3}", "\u{3a3}\u{391}"]
    );
    assert!(search_case_insensitive("\u{3c2}", "\u{391}\u{3a3}").is_empty());
}

#[test]
fn a_character_may_fold_to_several() {
    assert_eq!(
        search_case_insensitive("i\u{307}", "\u{130}stanbul\nistanbul"),
        vec!["\u{130}stanbul"]
    );
    assert_eq!(
        search_case_insensitive("\u{130}", "xi\u{307}y\nxiy"),
        vec!["xi\u{307}y"]
    );
}

#[test]
fn what_the_exact_search_finds_the_search_ignoring_case_finds() {
    for contents in TEXTS {
        for query in QUERIES {
            let folded = search_case_insensitive(query, contents);
            for line in search(query, contents) {
                assert!(folded.contains(&line), "{query:?} in {contents:?}");
            }
        }
    }
}

#[test]
fn empty_query_finds_every_line_ignoring_case() {
    let contents = "One\n\ntWo\r\nTHREE";
    assert_eq!(
        search_case_insensitive("", contents),
        vec!["One", "", "tWo", "THREE"]
    );
}

#[test]
fn lines_found_are_slices_of_the_contents() {
    let contents = String::from("first\nsecond\r\nthird");
    let range = contents.as_bytes().as_ptr_range();
    for line in search("", &contents) {
        let start = line.as_ptr();
        assert!(range.start <= start && start <= range.end);
    }
}

#[test]
fn carriage_return_is_dropped_only_before_a_line_feed() {
    assert_eq!(search("", "a\r\nb\rc\nd\r"), vec!["a", "b\rc", "d\r"]);
    assert_eq!(search("", "a\r\r\n"), vec!["a\r"]);
}

#[test]
fn a_final_line_feed_adds_no_line() {
    assert_eq!(search("", "a\nb\n"), vec!["a", "b"]);
    assert_eq!(search("", "a\nb\n\n"), vec!["a", "b", ""]);
}

#[test]
fn split_first_line_gives_line_and_rest() {
    assert_eq!(split_first_line("one\ntwo\nthree"), ("one", "two\nthree"));
    assert_eq!(split_first_line("one\r\ntwo"), ("one", "two"));
    assert_eq!(split_first_line("one"), ("one", ""));
    assert_eq!(split_first_line("one\n"), ("one", ""));
    assert_eq!(split_first_line("\nrest"), ("", "rest"));
    assert_eq!(split_first_line(""), ("", ""));
    assert_eq!(split_first_line("é\r\nü"), ("é", "ü"));
}

#[test]
fn contains_finds_contiguous_runs_only() {
    assert!(contains("productive", "duct"));
    assert!(contains("duct", "duct"));
    assert!(contains("duct", ""));
    assert!(contains("", ""));
    assert!(!contains("", "a"));
    assert!(!contains("duct", "ductile"));
    assert!(!contains("d-u-c-t", "duct"));
    assert!(!contains("Duct", "duct"));
    assert!(contains("aab", "ab"));
    assert!(contains("日本語", "本"));
    assert!(!contains("日本語", "語日"));
}

#[test]
fn contains_agrees_with_std() {
    for haystack in TEXTS {
        for needle in QUERIES {
            assert_eq!(
                contains(haystack, needle),
                haystack.contains(needle),
                "{needle:?} in {haystack:?}"
            );
        }
    }
}
