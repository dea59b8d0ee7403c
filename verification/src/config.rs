//! The configuration of one run, the ways a run can fail, and the run
//! itself as a function of what was read.

use crate::search::{lines_found, search, search_case_insensitive, texts};
use vstd::prelude::*;
use vstd::string::StrSliceExecFns;
use vstd::string::StringExecFns;

verus! {

/// What to search for, where, and how to compare.
#[derive(Debug, PartialEq, Eq)]
pub struct Config {
    pub query: String,
    pub file_path: String,
    pub ignore_case: bool,
}

/// A configuration as plain values.
pub struct ConfigView {
    pub query: Seq<char>,
    pub file_path: Seq<char>,
    pub ignore_case: bool,
}

impl View for Config {
    type V = ConfigView;

    open spec fn view(&self) -> ConfigView {
        ConfigView {
            query: self.query@,
            file_path: self.file_path@,
            ignore_case: self.ignore_case,
        }
    }
}

/// Why a run failed.
#[derive(Debug, PartialEq, Eq)]
pub enum GrepError {
    /// The arguments name no query, or no file.
    InsufficientArguments,
    /// The file could not be read as text; the field says why.
    FileReadError(String),
}

/// The argument that asks for a comparison that ignores case.
pub open spec fn ignore_case_flag() -> Seq<char> {
    seq!['c']
}

/// The arguments themselves ask to ignore case: there is a fourth one, and
/// it is the flag.
pub open spec fn asks_to_ignore_case(args: Seq<String>) -> bool {
    args.len() >= 4 && args[3]@ == ignore_case_flag()
}

/// The message of the error that says that arguments are missing.
pub open spec fn insufficient_arguments_message() -> Seq<char> {
    "not enough arguments"@
}

/// The words that stand before the message of each kind of error when it is
/// reported.
pub open spec fn report_prefix(error: GrepError) -> Seq<char> {
    match error {
        GrepError::InsufficientArguments => "Problem parsing arguments: "@,
        GrepError::FileReadError(_) => "Application error: "@,
    }
}

/// The message of an error.
pub open spec fn message_of(error: GrepError) -> Seq<char> {
    match error {
        GrepError::InsufficientArguments => insufficient_arguments_message(),
        GrepError::FileReadError(why) => why@,
    }
}

/// Whether `arg` is the flag that asks to ignore case.
fn is_ignore_case_flag(arg: &str) -> (is_flag: bool)
    ensures
        is_flag == (arg@ == ignore_case_flag()),
{
    let is_flag = arg.unicode_len() == 1 && arg.get_char(0) == 'c';
    assert(is_flag ==> arg@ =~= ignore_case_flag());
    is_flag
}

impl Config {
    /// The configuration that the arguments of an invocation describe.
    ///
    /// `args[0]` is the program's name and is not looked at; `args[1]` is
    /// the query and `args[2]` the file's path. Case is ignored where the
    /// fourth argument is the flag `c`, and otherwise where
    /// `ignore_case_set` says that the environment asks for it. With fewer
    /// than three arguments there is no configuration.
    pub fn build(args: &[String], ignore_case_set: bool) -> (built: Result<Config, GrepError>)
        ensures
            args@.len() < 3 ==> built == Err::<Config, GrepError>(GrepError::InsufficientArguments),
            args@.len() >= 3 ==> built is Ok && built->Ok_0@ == (ConfigView {
                query: args@[1]@,
                file_path: args@[2]@,
                ignore_case: asks_to_ignore_case(args@) || ignore_case_set,
            }),
    {
        if args.len() < 3 {
            return Err(GrepError::InsufficientArguments);
        }
        let query = args[1].clone();
        let file_path = args[2].clone();
        let ignore_case = if args.len() >= 4 && is_ignore_case_flag(args[3].as_str()) {
            true
        } else {
            ignore_case_set
        };
        Ok(Config { query, file_path, ignore_case })
    }
}

impl GrepError {
    /// What went wrong, in words: for missing arguments a fixed sentence,
    /// for a file that could not be read the reason as it was given.
    pub fn message(&self) -> (text: String)
        ensures
            text@ == message_of(*self),
    {
        match self {
            GrepError::InsufficientArguments => String::from_str("not enough arguments"),
            GrepError::FileReadError(why) => why.clone(),
        }
    }

    /// The line that reports this error to the user: the prefix of its
    /// kind, then its message.
    pub fn report(&self) -> (line: String)
        ensures
            line@ == report_prefix(*self) + message_of(*self),
    {
        let prefix = match self {
            GrepError::InsufficientArguments => "Problem parsing arguments: ",
            GrepError::FileReadError(_) => "Application error: ",
        };
        let message = self.message();
        String::from_str(prefix).concat(message.as_str())
    }
}

/// The lines that a run prints, given what reading the configured file gave:
/// its contents, or the reason why it could not be read.
///
/// A file that could not be read fails the run with that reason, and no line
/// is printed. Otherwise the lines are those of the contents that match the
/// configured query, with or without regard to case as configured.
pub fn run<'a>(config: &Config, file: Result<&'a str, String>) -> (outcome: Result<
    Vec<&'a str>,
    GrepError,
>)
    ensures
        match file {
            Err(why) => outcome == Err::<Vec<&'a str>, GrepError>(GrepError::FileReadError(why)),
            Ok(contents) => outcome is Ok && texts(outcome->Ok_0@) == lines_found(
                config.query@,
                contents@,
                config.ignore_case,
            ),
        },
{
    match file {
        Err(why) => Err(GrepError::FileReadError(why)),
        Ok(contents) => {
            let found = if config.ignore_case {
                search_case_insensitive(config.query.as_str(), contents)
            } else {
                search(config.query.as_str(), contents)
            };
            Ok(found)
        },
    }
}

} // verus!
