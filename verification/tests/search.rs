use mini_grep_rust::{
    search, search_case_insensitive, search_with_compiled, search_with_regex, SearchError,
};

#[test]
fn one_result() {
    let query = "duct";
    let contents = "\
Rust:
safe, fast, productive.
Pick three.";

    assert_eq!(vec!["safe, fast, productive."], search(query, contents));
}

#[test]
fn case_insensitive() {
    let query = "rUsT";
    let contents = "\
Rust:
safe, fast, productive.
Pick three.
Trust me.";

    assert_eq!(
        vec!["Rust:", "Trust me."],
        search_case_insensitive(query, contents)
    );
}

#[test]
fn empty_query() {
    let query = "";
    let contents = "Some text\nMore text";

    assert_eq!(vec!["Some text", "More text"], search(query, contents));
}

#[test]
fn no_matches() {
    let query = "xyz";
    let contents = "Some text\nMore text";

    let expected: Vec<&str> = vec![];
    assert_eq!(expected, search(query, contents));
}

#[test]
fn multiple_matches() {
    let query = "the";
    let contents = "\
The quick brown fox
jumps over the lazy dog.
The end.";

    assert_eq!(vec!["jumps over the lazy dog."], search(query, contents));
}

#[test]
fn regex_search() {
    let pattern = r"\bnobody\b"; // Word boundary
    let contents = "\
I'm nobody! Who are you?
Are you nobody, too?
Somebody once told me.";

    let result = search_with_regex(pattern, contents).unwrap();
    assert_eq!(
        vec!["I'm nobody! Who are you?", "Are you nobody, too?"],
        result
    );
}

#[test]
fn literal_search_is_case_sensitive() {
    let contents = "Rust:\nTrust me.\nrust never sleeps";
    assert_eq!(vec!["Trust me.", "rust never sleeps"], search("rust", contents));
    assert_eq!(vec!["Rust:"], search("Rust", contents));
}

#[test]
fn matching_lines_keep_their_order_and_come_once() {
    let contents = "aa b aa\nc\naa\n\naaaa";
    assert_eq!(vec!["aa b aa", "aa", "aaaa"], search("aa", contents));
}

#[test]
fn query_must_lie_within_one_line() {
    let contents = "ab\ncd";
    let expected: Vec<&str> = vec![];
    assert_eq!(expected, search("b\nc", contents));
    assert_eq!(expected, search("bc", contents));
}

#[test]
fn query_longer_than_every_line() {
    let expected: Vec<&str> = vec![];
    assert_eq!(expected, search("abcd", "abc\nbcd\n"));
}

#[test]
fn query_at_the_ends_of_a_line() {
    let contents = "needle in front\nat the back a needle\nneedle\nneedl";
    assert_eq!(
        vec!["needle in front", "at the back a needle", "needle"],
        search("needle", contents)
    );
}

#[test]
fn query_found_after_a_false_start() {
    assert_eq!(vec!["aaab"], search("aab", "aaab\nabab"));
}

#[test]
fn search_in_empty_contents() {
    let expected: Vec<&str> = vec![];
    assert_eq!(expected, search("", ""));
    assert_eq!(expected, search("a", ""));
    assert_eq!(expected, search_case_insensitive("", ""));
    assert_eq!(expected, search_with_regex("", "").unwrap());
}

#[test]
fn search_beyond_ascii() {
    let contents = "naïve café\nnaive cafe\n日本語のテキスト\nπ ≈ 3.14159";
    assert_eq!(vec!["naïve café"], search("é", contents));
    assert_eq!(vec!["naïve café"], search("ïve", contents));
    assert_eq!(vec!["日本語のテキスト"], search("語の", contents));
    assert_eq!(vec!["π ≈ 3.14159"], search("≈", contents));
}

#[test]
fn part_of_a_character_is_no_match() {
    // 'é' is C3 A9 and 'ï' is C3 AF: they share a first byte, and no more.
    let expected: Vec<&str> = vec![];
    assert_eq!(expected, search("é", "naïve"));
    assert_eq!(expected, search("©", "é"));
}

#[test]
fn case_insensitive_search_keeps_the_line_as_written() {
    let contents = "HELLO World\nhello there\nHeLLo\ngoodbye";
    assert_eq!(
        vec!["HELLO World", "hello there", "HeLLo"],
        search_case_insensitive("hElLo", contents)
    );
}

#[test]
fn case_insensitive_search_beyond_ascii() {
    let contents = "ÄPFEL und Birnen\näpfel\nApfel";
    assert_eq!(
        vec!["ÄPFEL und Birnen", "äpfel"],
        search_case_insensitive("Äpfel", contents)
    );
}

#[test]
fn case_insensitive_search_with_empty_query() {
    let contents = "One\ntwo\n\nTHREE";
    assert_eq!(
        vec!["One", "two", "", "THREE"],
        search_case_insensitive("", contents)
    );
}

#[test]
fn case_insensitive_search_finds_what_literal_search_finds() {
    let contents = "Rust:\nsafe, fast, productive.\nPick three.\nTrust me.";
    let literal = search("ust", contents);
    let folded = search_case_insensitive("ust", contents);
    assert_eq!(vec!["Rust:", "Trust me."], literal);
    for line in &literal {
        assert!(folded.contains(line));
    }
    assert_eq!(literal, folded);
}

#[test]
fn regex_search_is_not_anchored() {
    let contents = "alpha 12\nbeta\ngamma 7 delta\n";
    assert_eq!(
        vec!["alpha 12", "gamma 7 delta"],
        search_with_regex("[0-9]+", contents).unwrap()
    );
}

#[test]
fn regex_search_with_anchors_and_classes() {
    let contents = "cat\nconcat\ncatalog\nCat";
    assert_eq!(vec!["cat", "catalog"], search_with_regex("^cat", contents).unwrap());
    assert_eq!(vec!["cat", "concat"], search_with_regex("cat$", contents).unwrap());
    assert_eq!(vec!["cat", "Cat"], search_with_regex("^[cC]at$", contents).unwrap());
}

#[test]
fn regex_search_with_empty_pattern() {
    let contents = "one\n\nthree";
    assert_eq!(vec!["one", "", "three"], search_with_regex("", contents).unwrap());
}

#[test]
fn regex_search_without_a_match() {
    let expected: Vec<&str> = vec![];
    assert_eq!(expected, search_with_regex("z+", "Some text\nMore text").unwrap());
}

#[test]
fn regex_search_reads_the_query_as_a_pattern() {
    let contents = "a.c\nabc";
    assert_eq!(vec!["a.c"], search("a.c", contents));
    assert_eq!(vec!["a.c", "abc"], search_with_regex("a.c", contents).unwrap());
    assert_eq!(vec!["a.c"], search_with_regex(r"a\.c", contents).unwrap());
}

#[test]
fn invalid_pattern_is_refused() {
    let contents = "I'm nobody! Who are you?\n(unbalanced";
    let found = search_with_regex("(unbalanced", contents);
    assert!(matches!(found, Err(SearchError::PatternCompile(_))));
}

#[test]
fn invalid_pattern_is_refused_for_every_contents() {
    assert!(search_with_regex("(", "").is_err());
    assert!(search_with_regex("[a-", "a\nb\n").is_err());
    assert!(search_with_regex("a{2,1}", "aa").is_err());
    assert!(search_with_regex("*", "*").is_err());
}

#[test]
fn refused_pattern_carries_the_reason() {
    match search_with_regex("(", "text") {
        Err(SearchError::PatternCompile(cause)) => {
            let same = regex::Regex::new("(").unwrap_err();
            assert_eq!(same, cause);
            assert!(cause.to_string().contains("regex parse error"));
        }
        Ok(_) => panic!("the pattern was accepted"),
    }
}

#[test]
fn searching_again_gives_the_same() {
    let contents = "Rust:\nsafe, fast, productive.\nPick three.\nTrust me.";
    assert_eq!(search("t", contents), search("t", contents));
    assert_eq!(
        search_case_insensitive("T", contents),
        search_case_insensitive("T", contents)
    );
    assert_eq!(
        search_with_regex("t.", contents).unwrap(),
        search_with_regex("t.", contents).unwrap()
    );
    assert_eq!(
        search_with_regex("(", contents).is_err(),
        search_with_regex("(", contents).is_err()
    );
}

#[test]
fn results_are_slices_of_the_contents() {
    let contents = String::from("first\nsecond\nthird");
    let found = search("d", &contents);
    assert_eq!(vec!["second", "third"], found);
    let start = contents.as_ptr() as usize;
    let end = start + contents.len();
    for line in found {
        let at = line.as_ptr() as usize;
        assert!(start <= at && at + line.len() <= end);
    }
}

#[test]
fn lower_casing_can_lose_a_match() {
    // A sigma at the end of a word has a lower-case form of its own.
    let contents = "ΑΣ";
    assert_eq!(vec!["ΑΣ"], search("Σ", contents));
    let expected: Vec<&str> = vec![];
    assert_eq!(expected, search_case_insensitive("Σ", contents));
    assert_eq!(vec!["ΑΣ"], search_case_insensitive("ΑΣ", contents));
}

#[test]
fn search_with_a_compiled_pattern() {
    let re = regex::Regex::new("^[a-c]+$").unwrap();
    assert_eq!(vec!["abc", "cab"], search_with_compiled(&re, "abc\nabcd\ncab\n\n"));
    let expected: Vec<&str> = vec![];
    assert_eq!(expected, search_with_compiled(&re, ""));
}
