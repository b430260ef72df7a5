use minigrep::lines::split_first_line;
use minigrep::search;
use minigrep::substring::bytes_contain;
use minigrep::substring::contains;

fn by_std<'a>(query: &str, contents: &'a str) -> Vec<&'a str> {
    contents.lines().filter(|line| line.contains(query)).collect()
}

#[test]
fn one_result() {
    let query = "duct";
    let contents = "\nRust:
        \nsafe, fast, productive.
        \nPick three.";
    assert_eq!(
        vec!["safe, fast, productive."],
        search(query, contents)
    );
}

#[test]
fn one_line_of_three_matches() {
    let contents = "\nRust:\nsafe, fast, productive.\nPick three.";
    assert_eq!(search("duct", contents), vec!["safe, fast, productive."]);
}

#[test]
fn matches_keep_the_order_of_the_text() {
    let contents = "one\ntwo one\nthree\none more\nnone";
    assert_eq!(search("one", contents), vec!["one", "two one", "one more", "none"]);
}

#[test]
fn equal_lines_are_each_reported() {
    assert_eq!(search("a", "a\nb\na\na"), vec!["a", "a", "a"]);
}

#[test]
fn every_result_holds_the_query() {
    let contents = "alpha\nbeta\ngamma\ndelta\nepsilon";
    let found = search("a", contents);
    assert_eq!(found, vec!["alpha", "beta", "gamma", "delta"]);
    for line in found {
        assert!(line.contains("a"));
    }
}

#[test]
fn empty_query_returns_every_line() {
    assert_eq!(search("", "a\nb\n\nc\n"), vec!["a", "b", "", "c"]);
    assert_eq!(search("", "only"), vec!["only"]);
}

#[test]
fn empty_contents_have_no_lines() {
    assert_eq!(search("hello", ""), Vec::<&str>::new());
    assert_eq!(search("", ""), Vec::<&str>::new());
}

#[test]
fn no_match_gives_nothing() {
    assert_eq!(search("hello", "good\nbye\n"), Vec::<&str>::new());
}

#[test]
fn trailing_terminator_adds_no_line() {
    assert_eq!(search("", "a\nb\n"), vec!["a", "b"]);
    assert_eq!(search("", "a\nb"), vec!["a", "b"]);
    assert_eq!(search("", "\n"), vec![""]);
    assert_eq!(search("", "\n\n"), vec!["", ""]);
}

#[test]
fn carriage_return_before_line_feed_ends_the_line() {
    assert_eq!(search("", "a\r\nb\r\n"), vec!["a", "b"]);
    assert_eq!(search("", "a\r\n\r\nb"), vec!["a", "", "b"]);
    assert_eq!(search("a", "a\r\nba\r\nc"), vec!["a", "ba"]);
}

#[test]
fn only_one_carriage_return_is_taken() {
    assert_eq!(search("", "a\r\r\nb"), vec!["a\r", "b"]);
}

#[test]
fn lone_carriage_return_is_an_ordinary_character() {
    assert_eq!(search("", "a\rb\nc"), vec!["a\rb", "c"]);
    assert_eq!(search("", "last\r"), vec!["last\r"]);
    assert_eq!(search("\r", "x\r\ny\rz\n"), vec!["y\rz"]);
}

#[test]
fn comparison_is_case_sensitive() {
    assert_eq!(search("rust", "Rust\nrust\nRUST\ntrust"), vec!["rust", "trust"]);
}

#[test]
fn query_must_be_contiguous() {
    assert_eq!(search("ab", "a b\nab\nba\naab"), vec!["ab", "aab"]);
}

#[test]
fn query_longer_than_every_line() {
    assert_eq!(search("abcdef", "abc\ndef\nabcde"), Vec::<&str>::new());
}

#[test]
fn query_equal_to_a_line() {
    assert_eq!(search("abc", "ab\nabc\nabcd"), vec!["abc", "abcd"]);
}

#[test]
fn query_with_a_line_feed_matches_nothing() {
    assert_eq!(search("a\nb", "a\nb\n"), Vec::<&str>::new());
    assert_eq!(search("\n", "a\nb\n"), Vec::<&str>::new());
}

#[test]
fn characters_of_several_bytes() {
    let contents = "caf\u{e9}\nth\u{e9}\ncafe\n\u{65e5}\u{672c}\u{8a9e}\n\u{1f600} smile";
    assert_eq!(search("\u{e9}", contents), vec!["caf\u{e9}", "th\u{e9}"]);
    assert_eq!(search("e", contents), vec!["cafe", "\u{1f600} smile"]);
    assert_eq!(search("\u{672c}", contents), vec!["\u{65e5}\u{672c}\u{8a9e}"]);
    assert_eq!(search("\u{1f600}", contents), vec!["\u{1f600} smile"]);
    assert_eq!(search("\u{1f601}", contents), Vec::<&str>::new());
}

#[test]
fn results_are_slices_of_the_contents() {
    let contents = String::from("first\nsecond\nthird");
    let found = search("d", &contents);
    assert_eq!(found, vec!["second", "third"]);
    let start = contents.as_ptr() as usize;
    let end = start + contents.len();
    for line in found {
        let at = line.as_ptr() as usize;
        assert!(start <= at && at + line.len() <= end);
    }
}

#[test]
fn agrees_with_the_standard_library() {
    let texts = [
        "",
        "\n",
        "\r",
        "\r\n",
        "\n\r",
        "a",
        "a\n",
        "a\r",
        "a\r\n",
        "\na",
        "\r\na",
        "a\nb",
        "a\r\nb\r\n",
        "a\n\nb\n\n",
        "ab\rcd\r\nef\r\r\ngh\r",
        "\nRust:\nsafe, fast, productive.\nPick three.",
        "na\u{ef}ve\r\ncaf\u{e9}\n\u{1f600}\u{1f600}\n\u{e9}",
        "aaa\naa\na\n\naaaa",
    ];
    let queries = [
        "", "a", "aa", "aaa", "b", "\r", "\n", "\r\n", "duct", "\u{e9}", "\u{1f600}", "e", "ab\rcd",
        "f\r", " ",
    ];
    for text in texts {
        for query in queries {
            assert_eq!(search(query, text), by_std(query, text), "query {:?} in {:?}", query, text);
        }
    }
}

#[test]
fn contains_is_exact_substring_search() {
    assert!(contains("safe, fast, productive.", "duct"));
    assert!(contains("abc", ""));
    assert!(contains("", ""));
    assert!(!contains("", "a"));
    assert!(contains("abc", "abc"));
    assert!(!contains("abc", "abcd"));
    assert!(!contains("abc", "ac"));
    assert!(contains("aab", "ab"));
    assert!(!contains("Abc", "abc"));
    assert!(contains("caf\u{e9}!", "\u{e9}!"));
    assert!(!contains("caf\u{e9}", "\u{e8}"));
}

#[test]
fn bytes_contain_finds_runs_of_bytes() {
    assert!(bytes_contain(&[1, 2, 3, 4], &[2, 3]));
    assert!(bytes_contain(&[1, 2, 3, 4], &[4]));
    assert!(bytes_contain(&[1, 2, 3, 4], &[]));
    assert!(bytes_contain(&[], &[]));
    assert!(!bytes_contain(&[1, 2, 3, 4], &[3, 2]));
    assert!(!bytes_contain(&[1, 2], &[1, 2, 3]));
    assert!(bytes_contain(&[0, 0, 1], &[0, 1]));
}

#[test]
fn first_line_is_split_off() {
    assert_eq!(split_first_line("ab\ncd\nef"), ("ab", "cd\nef"));
    assert_eq!(split_first_line("ab\r\ncd"), ("ab", "cd"));
    assert_eq!(split_first_line("ab"), ("ab", ""));
    assert_eq!(split_first_line("ab\r"), ("ab\r", ""));
    assert_eq!(split_first_line("\nab"), ("", "ab"));
    assert_eq!(split_first_line("ab\n"), ("ab", ""));
    assert_eq!(split_first_line(""), ("", ""));
    assert_eq!(split_first_line("\u{e9}\r\n\u{e8}"), ("\u{e9}", "\u{e8}"));
}
