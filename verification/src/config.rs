//! The parameters of one search, and their resolution from command-line
//! tokens: the program's name, the query, the path of the text, and an
//! optional flag `--ignore-case=<bool>`.

use vstd::prelude::*;
use vstd::string::*;
use crate::text::{chars_of, find_first, first_index_of, range_equals, Span};

verus! {

/// The flag that sets the case handling on the command line.
pub const IGNORE_CASE_FLAG: &'static str = "--ignore-case";

/// The environment variable whose presence asks for a search without regard
/// to case where the command line holds no flag.
pub const IGNORE_CASE_VAR: &'static str = "IGNORE_CASE";

/// The parameters of one search.
#[derive(Debug)]
pub struct Config {
    /// The text to look for.
    pub query: String,
    /// Where the text to search is read from.
    pub file_path: String,
    /// Whether letter case is disregarded.
    pub ignore_case: bool,
}

/// Why a list of tokens gives no `Config`.
#[derive(Debug)]
pub enum ConfigError {
    /// Fewer than three tokens: the query or the path is missing.
    InsufficientArguments,
    /// The fourth token does not start with the flag's name.
    UnrecognizedFlag {
        /// The name that was expected.
        expected: String,
        /// The fourth token up to its first `=`.
        found: String,
    },
}

/// What a list of tokens resolves to.
pub enum Resolution {
    Resolved { query: Seq<char>, file_path: Seq<char>, ignore_case: bool },
    InsufficientArguments,
    UnrecognizedFlag { expected: Seq<char>, found: Seq<char> },
}

/// The part of `token` before its first `=`; all of it where it holds none.
pub open spec fn flag_key(token: Seq<char>) -> Seq<char> {
    token.take(first_index_of(token, '=') as int)
}

/// The part of `token` after its first `=`, where it holds one.
pub open spec fn flag_value(token: Seq<char>) -> Option<Seq<char>> {
    let at = first_index_of(token, '=');
    if at < token.len() {
        Some(token.skip(at as int + 1))
    } else {
        None
    }
}

/// What a flag token asks for: `true` where its value is exactly `true`,
/// `false` for every other value and where it has none.
pub open spec fn flag_setting(token: Seq<char>) -> bool {
    flag_value(token) == Some("true"@)
}

/// The resolution of `tokens`, where `fallback` is what holds without a
/// fourth token.
pub open spec fn resolve(tokens: Seq<Seq<char>>, fallback: bool) -> Resolution {
    if tokens.len() < 3 {
        Resolution::InsufficientArguments
    } else if tokens.len() == 3 {
        Resolution::Resolved { query: tokens[1], file_path: tokens[2], ignore_case: fallback }
    } else if flag_key(tokens[3]) != IGNORE_CASE_FLAG@ {
        Resolution::UnrecognizedFlag { expected: IGNORE_CASE_FLAG@, found: flag_key(tokens[3]) }
    } else {
        Resolution::Resolved {
            query: tokens[1],
            file_path: tokens[2],
            ignore_case: flag_setting(tokens[3]),
        }
    }
}

/// The text of each of `tokens`.
pub open spec fn token_views(tokens: Seq<String>) -> Seq<Seq<char>> {
    tokens.map_values(|token: String| token@)
}

impl View for Config {
    type V = Resolution;

    open spec fn view(&self) -> Resolution {
        Resolution::Resolved {
            query: self.query@,
            file_path: self.file_path@,
            ignore_case: self.ignore_case,
        }
    }
}

impl View for ConfigError {
    type V = Resolution;

    open spec fn view(&self) -> Resolution {
        match self {
            ConfigError::InsufficientArguments => Resolution::InsufficientArguments,
            ConfigError::UnrecognizedFlag { expected, found } => Resolution::UnrecognizedFlag {
                expected: expected@,
                found: found@,
            },
        }
    }
}

/// What `outcome` stands for.
pub open spec fn outcome_view(outcome: Result<Config, ConfigError>) -> Resolution {
    match outcome {
        Ok(config) => config@,
        Err(error) => error@,
    }
}

impl ConfigError {
    /// The text of the message.
    pub open spec fn message_text(&self) -> Seq<char> {
        match self {
            ConfigError::InsufficientArguments => "not enough arguments"@,
            ConfigError::UnrecognizedFlag { expected, found } => "expected \""@ + expected@
                + "\" but get "@ + found@,
        }
    }

    /// The message for the user: for an unrecognized flag it names both the
    /// flag that was expected and the one that was found.
    pub fn message(&self) -> (text: String)
        ensures
            text@ == self.message_text(),
    {
        match self {
            ConfigError::InsufficientArguments => String::from_str("not enough arguments"),
            ConfigError::UnrecognizedFlag { expected, found } => {
                let text = String::from_str("expected \"");
                let text = text.concat(expected.as_str());
                let text = text.concat("\" but get ");
                text.concat(found.as_str())
            },
        }
    }
}

impl Config {
    /// Resolves `args`: the query is the second token and the path the third.
    /// A fourth token must be the flag, and sets the case handling; without
    /// one, `ignore_case_set` decides, which says whether the environment
    /// asks for a search without regard to case.
    pub fn build(args: &[String], ignore_case_set: bool) -> (outcome: Result<Config, ConfigError>)
        ensures
            outcome_view(outcome) == resolve(token_views(args@), ignore_case_set),
    {
        if args.len() < 3 {
            return Err(ConfigError::InsufficientArguments);
        }
        let query = args[1].clone();
        let file_path = args[2].clone();
        if args.len() == 3 {
            return Ok(Config { query, file_path, ignore_case: ignore_case_set });
        }
        let token = args[3].as_str();
        let chars = chars_of(token);
        let at = find_first(&chars, '=');
        let flag = chars_of(IGNORE_CASE_FLAG);
        proof {
            assert(chars@.subrange(0, at as int) =~= flag_key(token@));
        }
        if !range_equals(&chars, 0, at, &flag) {
            let expected = String::from_str(IGNORE_CASE_FLAG);
            let found = String::from_str(Span::locate(&chars, 0, at).slice(token));
            return Err(ConfigError::UnrecognizedFlag { expected, found });
        }
        let ignore_case = if at < chars.len() {
            let yes = chars_of("true");
            proof {
                assert(chars@.subrange(at as int + 1, chars@.len() as int) =~= token@.skip(
                    at as int + 1,
                ));
            }
            range_equals(&chars, at + 1, chars.len(), &yes)
        } else {
            false
        };
        Ok(Config { query, file_path, ignore_case })
    }
}

} // verus!
