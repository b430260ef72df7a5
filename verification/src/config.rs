//! The two inputs of a search, taken from a list of invocation tokens.

use vstd::prelude::*;

verus! {

/// What to look for, and where.
#[derive(Debug)]
pub struct Config {
    /// The text that a line must contain to be reported.
    pub query: String,
    /// The path of the file whose lines are searched.
    pub filename: String,
}

/// The mathematical value of a [`Config`]: both fields as sequences of `char`.
pub struct ConfigView {
    pub query: Seq<char>,
    pub filename: Seq<char>,
}

impl View for Config {
    type V = ConfigView;

    open spec fn view(&self) -> ConfigView {
        ConfigView { query: self.query@, filename: self.filename@ }
    }
}

/// Why a list of tokens was not accepted. Each case carries the number of
/// tokens that were given.
#[derive(Debug, Clone, Copy, PartialEq, Eq, Structural)]
pub enum ConfigError {
    /// Fewer than three tokens.
    TooFewArguments { given: usize },
    /// More than three tokens.
    TooManyArguments { given: usize },
}

impl ConfigError {
    /// A short description of the error, fit for a diagnostic line.
    pub fn message(&self) -> (text: &'static str)
        ensures
            self is TooFewArguments ==> text@ == "Not enough arguments"@,
            self is TooManyArguments ==> text@ == "Too much arguments"@,
    {
        match self {
            ConfigError::TooFewArguments { .. } => "Not enough arguments",
            ConfigError::TooManyArguments { .. } => "Too much arguments",
        }
    }
}

/// The number of tokens in a well-formed invocation: the program's name, the
/// query and the file's path.
pub const EXPECTED_TOKENS: usize = 3;

impl Config {
    /// Both fields hold at least one character.
    pub open spec fn is_complete(&self) -> bool {
        self.query@.len() > 0 && self.filename@.len() > 0
    }

    /// Reads the query and the file's path from the tokens of an invocation.
    ///
    /// The first token is the program's own name and is not looked at. With
    /// exactly three tokens the second becomes the query and the third the
    /// path, both copied unchanged; any other number of tokens is an error.
    pub fn new(args: &[String]) -> (outcome: Result<Config, ConfigError>)
        ensures
            args@.len() < EXPECTED_TOKENS <==> outcome == Err::<Config, ConfigError>(
                ConfigError::TooFewArguments { given: args@.len() as usize },
            ),
            args@.len() > EXPECTED_TOKENS <==> outcome == Err::<Config, ConfigError>(
                ConfigError::TooManyArguments { given: args@.len() as usize },
            ),
            args@.len() == EXPECTED_TOKENS <==> outcome is Ok,
            outcome is Ok ==> outcome->Ok_0@ == (ConfigView {
                query: args@[1]@,
                filename: args@[2]@,
            }),
            outcome is Ok ==> (outcome->Ok_0.is_complete() <==> args@[1]@.len() > 0
                && args@[2]@.len() > 0),
    {
        let given: usize = args.len();
        if given < EXPECTED_TOKENS {
            return Err(ConfigError::TooFewArguments { given });
        }
        if given > EXPECTED_TOKENS {
            return Err(ConfigError::TooManyArguments { given });
        }
        let query: String = args[1].clone();
        let filename: String = args[2].clone();
        Ok(Config { query, filename })
    }
}

} // verus!
