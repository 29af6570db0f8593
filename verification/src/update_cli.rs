//! The options of the update command.

use vstd::prelude::*;
use crate::text::{chars_of, decimal, decimal_text, lemma_views_push, parse_unsigned, same_text, unsigned_value, views};

verus! {

broadcast use {vstd::string::group_string_axioms, lemma_views_push};

/// The shortest time between two checks, in seconds.
pub const MIN_INTERVAL: u32 = 60;

/// The longest time between two checks, in seconds.
pub const MAX_INTERVAL: u32 = 604800;

/// How an update is made.
#[derive(Debug, PartialEq, Eq)]
pub struct Options {
    pub check: bool,
    pub watch: bool,
    pub no_start: bool,
    pub interval: Option<u32>,
    pub install_dir: Option<String>,
}

#[verifier::ext_equal]
pub struct OptionsView {
    pub check: bool,
    pub watch: bool,
    pub no_start: bool,
    pub interval: Option<u32>,
    pub install_dir: Option<Seq<char>>,
}

impl View for Options {
    type V = OptionsView;

    open spec fn view(&self) -> OptionsView {
        OptionsView {
            check: self.check,
            watch: self.watch,
            no_start: self.no_start,
            interval: self.interval,
            install_dir: match self.install_dir {
                Some(path) => Some(path@),
                None => None,
            },
        }
    }
}

pub open spec fn no_options() -> OptionsView {
    OptionsView { check: false, watch: false, no_start: false, interval: None, install_dir: None }
}

impl Default for Options {
    fn default() -> (options: Options)
        ensures
            options@ == no_options(),
    {
        Options { check: false, watch: false, no_start: false, interval: None, install_dir: None }
    }
}

/// An argument that cannot be taken, with its reason.
#[derive(Debug, PartialEq, Eq)]
pub struct InvalidInput {
    pub message: String,
}

/// The error of this reason.
pub fn invalid(message: &str) -> (error: InvalidInput)
    ensures
        error.message@ == message@,
{
    InvalidInput { message: message.to_owned() }
}

/// The options of the arguments from `from` on, after `done`; none where help is asked for.
pub open spec fn options_from(arguments: Seq<Seq<char>>, from: nat, done: OptionsView) -> Result<Option<OptionsView>, Seq<char>>
    decreases arguments.len() - from,
{
    if from >= arguments.len() {
        if done.check && done.watch {
            Err("--check and --watch cannot be combined"@)
        } else {
            Ok(Some(done))
        }
    } else {
        let argument = arguments[from as int];
        if argument == "--help"@ || argument == "-h"@ {
            Ok(None)
        } else if argument == "--check"@ {
            options_from(arguments, from + 1, OptionsView { check: true, ..done })
        } else if argument == "--watch"@ {
            options_from(arguments, from + 1, OptionsView { watch: true, ..done })
        } else if argument == "--no-start"@ {
            options_from(arguments, from + 1, OptionsView { no_start: true, ..done })
        } else if argument == "--interval"@ {
            if from + 1 >= arguments.len() {
                Err("--interval needs seconds"@)
            } else {
                match unsigned_value(arguments[from as int + 1], u32::MAX as nat) {
                    None => Err("--interval must be an integer from 60 to 604800"@),
                    Some(seconds) => if MIN_INTERVAL <= seconds <= MAX_INTERVAL {
                        options_from(arguments, from + 2, OptionsView { interval: Some(seconds as u32), ..done })
                    } else {
                        Err("--interval must be an integer from 60 to 604800"@)
                    },
                }
            }
        } else if argument == "--install-dir"@ {
            if from + 1 >= arguments.len() || arguments[from as int + 1].len() == 0 {
                Err("--install-dir needs a path"@)
            } else {
                options_from(arguments, from + 2, OptionsView { install_dir: Some(arguments[from as int + 1]), ..done })
            }
        } else {
            Err("unknown update option; run 'vectors update --help'"@)
        }
    }
}

/// The options of arguments.
pub open spec fn options_of(arguments: Seq<Seq<char>>) -> Result<Option<OptionsView>, Seq<char>> {
    options_from(arguments, 0, no_options())
}

pub open spec fn parsed(result: Result<Option<Options>, InvalidInput>) -> Result<Option<OptionsView>, Seq<char>> {
    match result {
        Ok(None) => Ok(None),
        Ok(Some(options)) => Ok(Some(options@)),
        Err(error) => Err(error.message@),
    }
}

/// Reads arguments; none where help is asked for.
pub fn parse(arguments: &Vec<String>) -> (result: Result<Option<Options>, InvalidInput>)
    ensures
        parsed(result) == options_of(views(arguments@)),
{
    let ghost all = views(arguments@);
    let total: usize = arguments.len();
    let mut options = Options::default();
    let mut at: usize = 0;
    while at < total
        invariant
            all == views(arguments@),
            total == arguments@.len(),
            at <= total,
            options_from(all, at as nat, options@) == options_of(all),
        decreases total - at,
    {
        assert(all[at as int] == arguments@[at as int]@);
        let argument = arguments[at].as_str();
        if same_text(argument, "--help") || same_text(argument, "-h") {
            return Ok(None);
        } else if same_text(argument, "--check") {
            options.check = true;
        } else if same_text(argument, "--watch") {
            options.watch = true;
        } else if same_text(argument, "--no-start") {
            options.no_start = true;
        } else if same_text(argument, "--interval") {
            at = at + 1;
            if at >= total {
                return Err(invalid("--interval needs seconds"));
            }
            assert(all[at as int] == arguments@[at as int]@);
            match parse_unsigned(arguments[at].as_str(), u32::MAX as u64) {
                Some(seconds) if MIN_INTERVAL as u64 <= seconds && seconds <= MAX_INTERVAL as u64 => {
                    options.interval = Some(seconds as u32);
                },
                _ => {
                    return Err(invalid("--interval must be an integer from 60 to 604800"));
                },
            }
        } else if same_text(argument, "--install-dir") {
            at = at + 1;
            if at >= total {
                return Err(invalid("--install-dir needs a path"));
            }
            assert(all[at as int] == arguments@[at as int]@);
            let path = chars_of(arguments[at].as_str());
            if path.len() == 0 {
                return Err(invalid("--install-dir needs a path"));
            }
            options.install_dir = Some(arguments[at].clone());
        } else {
            return Err(invalid("unknown update option; run 'vectors update --help'"));
        }
        at = at + 1;
    }
    if options.check && options.watch {
        return Err(invalid("--check and --watch cannot be combined"));
    }
    Ok(Some(options))
}

/// A list with a word where it is asked for.
pub open spec fn with_flag(list: Seq<Seq<char>>, given: bool, word: Seq<char>) -> Seq<Seq<char>> {
    if given {
        list.push(word)
    } else {
        list
    }
}

/// The arguments that the updating script is started with.
pub open spec fn script_arguments(options: OptionsView) -> Seq<Seq<char>> {
    let head = seq!["-s"@, "--"@];
    let flags = with_flag(
        with_flag(with_flag(head, options.check, "--check"@), options.watch, "--watch"@),
        options.no_start,
        "--no-start"@,
    );
    let timed = match options.interval {
        Some(seconds) => flags.push("--interval"@).push(decimal_text(seconds as nat)),
        None => flags,
    };
    match options.install_dir {
        Some(path) => timed.push("--install-dir"@).push(path),
        None => timed,
    }
}

/// The arguments that the updating script is started with. Each stands for itself: none is put into the
/// text of a command.
pub fn invoke(options: &Options) -> (arguments: Vec<String>)
    ensures
        views(arguments@) == script_arguments(options@),
{
    let mut arguments: Vec<String> = Vec::new();
    assert(views(arguments@) =~= Seq::empty());
    arguments.push("-s".to_owned());
    arguments.push("--".to_owned());
    assert(views(arguments@) =~= seq!["-s"@, "--"@]);
    if options.check {
        arguments.push("--check".to_owned());
    }
    if options.watch {
        arguments.push("--watch".to_owned());
    }
    if options.no_start {
        arguments.push("--no-start".to_owned());
    }
    if let Some(interval) = options.interval {
        arguments.push("--interval".to_owned());
        arguments.push(decimal(interval as u64));
    }
    if let Some(path) = &options.install_dir {
        arguments.push("--install-dir".to_owned());
        arguments.push(path.clone());
    }
    arguments
}

proof fn lemma_interval_in_range(arguments: Seq<Seq<char>>, from: nat, done: OptionsView)
    requires
        done.interval matches Some(seconds) ==> MIN_INTERVAL <= seconds <= MAX_INTERVAL,
        done.install_dir matches Some(path) ==> path.len() > 0,
    ensures
        options_from(arguments, from, done) matches Ok(Some(options)) ==> {
            &&& (options.interval matches Some(seconds) ==> MIN_INTERVAL <= seconds <= MAX_INTERVAL)
            &&& (options.install_dir matches Some(path) ==> path.len() > 0)
            &&& !(options.check && options.watch)
        },
    decreases arguments.len() - from,
{
    if from < arguments.len() {
        let argument = arguments[from as int];
        if argument == "--help"@ || argument == "-h"@ {
        } else if argument == "--check"@ {
            lemma_interval_in_range(arguments, from + 1, OptionsView { check: true, ..done });
        } else if argument == "--watch"@ {
            lemma_interval_in_range(arguments, from + 1, OptionsView { watch: true, ..done });
        } else if argument == "--no-start"@ {
            lemma_interval_in_range(arguments, from + 1, OptionsView { no_start: true, ..done });
        } else if argument == "--interval"@ {
            if from + 1 < arguments.len() {
                if let Some(seconds) = unsigned_value(arguments[from as int + 1], u32::MAX as nat) {
                    if MIN_INTERVAL <= seconds <= MAX_INTERVAL {
                        lemma_interval_in_range(
                            arguments,
                            from + 2,
                            OptionsView { interval: Some(seconds as u32), ..done },
                        );
                    }
                }
            }
        } else if argument == "--install-dir"@ {
            if from + 1 < arguments.len() && arguments[from as int + 1].len() > 0 {
                lemma_interval_in_range(arguments, from + 2, OptionsView { install_dir: Some(arguments[from as int + 1]), ..done });
            }
        }
    }
}

/// Options that were taken can be followed: the interval is in its range, the directory has a name, and
/// checking is not combined with watching.
pub proof fn law_options_can_be_followed(arguments: Seq<Seq<char>>)
    ensures
        options_of(arguments) matches Ok(Some(options)) ==> {
            &&& (options.interval matches Some(seconds) ==> MIN_INTERVAL <= seconds <= MAX_INTERVAL)
            &&& (options.install_dir matches Some(path) ==> path.len() > 0)
            &&& !(options.check && options.watch)
        },
{
    lemma_interval_in_range(arguments, 0, no_options());
}

} // verus!
