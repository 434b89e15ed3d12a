use minigrep::config::{IGNORE_CASE_FLAG, IGNORE_CASE_VAR};
use minigrep::{Config, ConfigError};

fn tokens(words: &[&str]) -> Vec<String> {
    words.iter().map(|word| word.to_string()).collect()
}

#[test]
fn two_tokens_are_not_enough() {
    let outcome = Config::build(&tokens(&["prog", "q"]), false);
    assert!(matches!(outcome, Err(ConfigError::InsufficientArguments)));
    let outcome = Config::build(&tokens(&["prog", "q"]), true);
    assert!(matches!(outcome, Err(ConfigError::InsufficientArguments)));
}

#[test]
fn fewer_tokens_are_not_enough() {
    assert!(matches!(
        Config::build(&tokens(&[]), false),
        Err(ConfigError::InsufficientArguments)
    ));
    assert!(matches!(
        Config::build(&tokens(&["prog"]), false),
        Err(ConfigError::InsufficientArguments)
    ));
}

#[test]
fn wrong_flag_is_named_with_the_expected_one() {
    let outcome = Config::build(&tokens(&["prog", "q", "file.txt", "--wrong-flag=true"]), false);
    match outcome {
        Err(ConfigError::UnrecognizedFlag { expected, found }) => {
            assert_eq!("--ignore-case", expected);
            assert_eq!("--wrong-flag", found);
        }
        other => panic!("unexpected outcome: {:?}", other),
    }
}

#[test]
fn wrong_flag_message_names_both() {
    let error = Config::build(&tokens(&["prog", "q", "file.txt", "--wrong-flag=true"]), false)
        .unwrap_err();
    assert_eq!("expected \"--ignore-case\" but get --wrong-flag", error.message());
}

#[test]
fn missing_arguments_message() {
    let error = Config::build(&tokens(&["prog", "q"]), false).unwrap_err();
    assert_eq!("not enough arguments", error.message());
}

#[test]
fn value_that_is_no_boolean_means_false() {
    let config =
        Config::build(&tokens(&["prog", "q", "file.txt", "--ignore-case=notabool"]), true).unwrap();
    assert_eq!("q", config.query);
    assert_eq!("file.txt", config.file_path);
    assert!(!config.ignore_case);
}

#[test]
fn flag_values() {
    let build = |flag: &str| {
        Config::build(&tokens(&["prog", "q", "file.txt", flag]), false).unwrap().ignore_case
    };
    assert!(build("--ignore-case=true"));
    assert!(!build("--ignore-case=false"));
    assert!(!build("--ignore-case=True"));
    assert!(!build("--ignore-case=TRUE"));
    assert!(!build("--ignore-case= true"));
    assert!(!build("--ignore-case=true "));
    assert!(!build("--ignore-case=1"));
    assert!(!build("--ignore-case="));
    assert!(!build("--ignore-case"));
    assert!(!build("--ignore-case=true=x"));
    assert!(!build("--ignore-case=tru"));
}

#[test]
fn flag_overrides_the_environment() {
    let config =
        Config::build(&tokens(&["prog", "q", "file.txt", "--ignore-case=false"]), true).unwrap();
    assert!(!config.ignore_case);
    let config =
        Config::build(&tokens(&["prog", "q", "file.txt", "--ignore-case=true"]), false).unwrap();
    assert!(config.ignore_case);
}

#[test]
fn without_a_flag_the_environment_decides() {
    let config = Config::build(&tokens(&["prog", "needle", "poem.txt"]), true).unwrap();
    assert_eq!("needle", config.query);
    assert_eq!("poem.txt", config.file_path);
    assert!(config.ignore_case);
    let config = Config::build(&tokens(&["prog", "needle", "poem.txt"]), false).unwrap();
    assert!(!config.ignore_case);
}

#[test]
fn empty_query_is_accepted() {
    let config = Config::build(&tokens(&["prog", "", "poem.txt"]), false).unwrap();
    assert_eq!("", config.query);
}

#[test]
fn flag_key_is_compared_exactly() {
    for flag in ["--Ignore-case=true", "--ignore-cas=true", "--ignore-case =true", "=true", "", "-ignore-case"] {
        let outcome = Config::build(&tokens(&["prog", "q", "file.txt", flag]), false);
        match outcome {
            Err(ConfigError::UnrecognizedFlag { expected, found }) => {
                assert_eq!("--ignore-case", expected);
                assert_eq!(flag.split('=').next().unwrap(), found);
            }
            other => panic!("unexpected outcome: {:?}", other),
        }
    }
}

#[test]
fn tokens_after_the_fourth_are_ignored() {
    let config = Config::build(
        &tokens(&["prog", "q", "file.txt", "--ignore-case=true", "extra", "more"]),
        false,
    )
    .unwrap();
    assert!(config.ignore_case);
    assert_eq!("q", config.query);
}

#[test]
fn tokens_are_copied() {
    let args = tokens(&["prog", "query text", "some/path.txt"]);
    let config = Config::build(&args, false).unwrap();
    drop(args);
    assert_eq!("query text", config.query);
    assert_eq!("some/path.txt", config.file_path);
}

#[test]
fn names_of_flag_and_variable() {
    assert_eq!("--ignore-case", IGNORE_CASE_FLAG);
    assert_eq!("IGNORE_CASE", IGNORE_CASE_VAR);
}
