use mini_grep_rust::{contains, search, Lines};

fn all_lines(text: &str) -> Vec<&str> {
    let mut lines = Lines::new(text);
    let mut out = Vec::new();
    while let Some(line) = lines.next_line() {
        out.push(line);
    }
    assert_eq!(None, lines.next_line());
    out
}

#[test]
fn lines_end_at_line_feeds() {
    assert_eq!(vec!["Some text", "More text"], all_lines("Some text\nMore text"));
}

#[test]
fn final_line_feed_ends_the_last_line() {
    assert_eq!(vec!["one", "two"], all_lines("one\ntwo\n"));
    assert_eq!(vec!["one", "two"], all_lines("one\ntwo"));
}

#[test]
fn empty_text_has_no_line() {
    let expected: Vec<&str> = vec![];
    assert_eq!(expected, all_lines(""));
}

#[test]
fn empty_lines_are_lines() {
    assert_eq!(vec![""], all_lines("\n"));
    assert_eq!(vec!["", ""], all_lines("\n\n"));
    assert_eq!(vec!["a", "", "b"], all_lines("a\n\nb"));
}

#[test]
fn carriage_return_before_line_feed_belongs_to_the_ending() {
    assert_eq!(vec!["one", "two"], all_lines("one\r\ntwo\r\n"));
    assert_eq!(vec!["foo", "bar", "", "baz"], all_lines("foo\r\nbar\n\r\nbaz\n"));
}

#[test]
fn other_carriage_returns_stay() {
    assert_eq!(vec!["foo", "bar", "", "baz\r"], all_lines("foo\nbar\n\r\nbaz\r"));
    assert_eq!(vec!["a\rb"], all_lines("a\rb\n"));
    assert_eq!(vec!["a\r"], all_lines("a\r\r\n"));
    assert_eq!(vec!["\r"], all_lines("\r"));
}

#[test]
fn lines_beyond_ascii() {
    assert_eq!(
        vec!["grüße", "日本語", "", "😀 end"],
        all_lines("grüße\r\n日本語\n\n😀 end")
    );
}

#[test]
fn lines_agree_with_the_standard_library() {
    let texts = [
        "",
        "\n",
        "\r",
        "\r\n",
        "\n\r",
        "a",
        "a\n",
        "a\r\n\r\nb\r",
        "\r\r\n\n\r\n",
        "x\ny\r\nz\n\n",
        "é\nï\r\n語\r",
    ];
    for text in texts {
        let expected: Vec<&str> = text.lines().collect();
        assert_eq!(expected, all_lines(text));
        assert_eq!(expected, search("", text));
    }
}

#[test]
fn lines_come_one_at_a_time() {
    let mut lines = Lines::new("a\nb");
    assert_eq!(Some("a"), lines.next_line());
    assert_eq!(Some("b"), lines.next_line());
    assert_eq!(None, lines.next_line());
    assert_eq!(None, lines.next_line());
}

#[test]
fn contains_finds_a_run_of_characters() {
    assert!(contains("safe, fast, productive.", "duct"));
    assert!(contains("safe, fast, productive.", "safe"));
    assert!(contains("safe, fast, productive.", "."));
    assert!(!contains("safe, fast, productive.", "Duct"));
    assert!(!contains("safe, fast, productive.", "safe fast"));
}

#[test]
fn contains_with_empty_texts() {
    assert!(contains("abc", ""));
    assert!(contains("", ""));
    assert!(!contains("", "a"));
}

#[test]
fn contains_with_equal_and_longer_needle() {
    assert!(contains("abc", "abc"));
    assert!(!contains("abc", "abcd"));
    assert!(!contains("bc", "abc"));
}

#[test]
fn contains_agrees_with_the_standard_library() {
    let texts = ["", "a", "ab", "aab", "abab", "é", "naïve", "語の", "日本語のテキスト", "©"];
    for hay in texts {
        for needle in texts {
            assert_eq!(hay.contains(needle), contains(hay, needle));
        }
    }
}
