use minigrep::Config;
use minigrep::ConfigError;

fn tokens(words: &[&str]) -> Vec<String> {
    words.iter().map(|word| String::from(*word)).collect()
}

#[test]
#[should_panic]
fn use_not_enough() {
    let v = vec![String::from("program"), String::from("hello")];
    if let Err(_) = Config::new(&v) {
        panic!();
    }
}

#[test]
#[should_panic]
fn use_too_much() {
    let v = vec![
        String::from("program"),
        String::from("hello"),
        String::from("hello"),
        String::from("hello"),
    ];
    if let Err(_) = Config::new(&v) {
        panic!();
    }
}

#[test]
fn use_ok() {
    let v = vec![String::from("program"), String::from("hello"), String::from("poem.txt")];
    if let Err(_) = Config::new(&v) {
        panic!();
    }
}

#[test]
fn three_tokens_give_query_and_path() {
    let config = Config::new(&tokens(&["program", "hello", "poem.txt"])).unwrap();
    assert_eq!(config.query, "hello");
    assert_eq!(config.filename, "poem.txt");
}

#[test]
fn program_name_is_ignored() {
    let a = Config::new(&tokens(&["one", "needle", "hay.txt"])).unwrap();
    let b = Config::new(&tokens(&["", "needle", "hay.txt"])).unwrap();
    assert_eq!(a.query, b.query);
    assert_eq!(a.filename, b.filename);
}

#[test]
fn tokens_are_copied_unchanged() {
    let config = Config::new(&tokens(&["p", "  two  words ", "dir/\u{e9}t\u{e9}.txt"])).unwrap();
    assert_eq!(config.query, "  two  words ");
    assert_eq!(config.filename, "dir/\u{e9}t\u{e9}.txt");
}

#[test]
fn empty_tokens_are_accepted_as_given() {
    let config = Config::new(&tokens(&["p", "", ""])).unwrap();
    assert_eq!(config.query, "");
    assert_eq!(config.filename, "");
}

#[test]
fn two_tokens_are_too_few() {
    let outcome = Config::new(&tokens(&["program", "hello"]));
    assert!(matches!(outcome, Err(ConfigError::TooFewArguments { given: 2 })));
}

#[test]
fn four_tokens_are_too_many() {
    let outcome = Config::new(&tokens(&["program", "hello", "x", "y"]));
    assert!(matches!(outcome, Err(ConfigError::TooManyArguments { given: 4 })));
}

#[test]
fn no_tokens_are_too_few() {
    let outcome = Config::new(&[]);
    assert!(matches!(outcome, Err(ConfigError::TooFewArguments { given: 0 })));
}

#[test]
fn every_other_count_is_an_arity_error() {
    for count in 0usize..12 {
        let list: Vec<String> = (0..count).map(|i| format!("token{}", i)).collect();
        match Config::new(&list) {
            Ok(config) => {
                assert_eq!(count, 3);
                assert_eq!(config.query, "token1");
                assert_eq!(config.filename, "token2");
            }
            Err(ConfigError::TooFewArguments { given }) => {
                assert!(count < 3);
                assert_eq!(given, count);
            }
            Err(ConfigError::TooManyArguments { given }) => {
                assert!(count > 3);
                assert_eq!(given, count);
            }
        }
    }
}

#[test]
fn errors_describe_themselves() {
    assert_eq!(ConfigError::TooFewArguments { given: 1 }.message(), "Not enough arguments");
    assert_eq!(ConfigError::TooManyArguments { given: 5 }.message(), "Too much arguments");
}

#[test]
fn errors_compare_by_case_and_count() {
    assert_eq!(
        ConfigError::TooFewArguments { given: 1 },
        ConfigError::TooFewArguments { given: 1 }
    );
    assert_ne!(
        ConfigError::TooFewArguments { given: 1 },
        ConfigError::TooFewArguments { given: 2 }
    );
}
