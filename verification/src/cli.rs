//! Command-line arguments: which command runs, and the options after it.

use vstd::prelude::*;
use crate::compress::Options;
use crate::error::TcError;
use crate::text::{chars_eq, chars_of, text_of, text_with_chars};

verus! {

/// The options that follow the command.
#[derive(Debug, Clone)]
pub struct Args {
    pub file: Option<String>,
    pub output: Option<String>,
    pub map: Option<String>,
    pub no_ws: bool,
    pub no_dedup: bool,
    pub no_urls: bool,
    pub no_filler: bool,
    pub json: bool,
}

/// [`Args`] as mathematical values.
pub ghost struct ArgsModel {
    pub file: Option<Seq<char>>,
    pub output: Option<Seq<char>>,
    pub map: Option<Seq<char>>,
    pub no_ws: bool,
    pub no_dedup: bool,
    pub no_urls: bool,
    pub no_filler: bool,
    pub json: bool,
}

/// The characters of an optional string.
pub open spec fn opt_view(o: Option<String>) -> Option<Seq<char>> {
    match o {
        Some(s) => Some(s@),
        None => None,
    }
}

impl View for Args {
    type V = ArgsModel;

    open spec fn view(&self) -> ArgsModel {
        ArgsModel {
            file: opt_view(self.file),
            output: opt_view(self.output),
            map: opt_view(self.map),
            no_ws: self.no_ws,
            no_dedup: self.no_dedup,
            no_urls: self.no_urls,
            no_filler: self.no_filler,
            json: self.json,
        }
    }
}

/// Nothing given yet.
pub open spec fn no_args() -> ArgsModel {
    ArgsModel {
        file: None,
        output: None,
        map: None,
        no_ws: false,
        no_dedup: false,
        no_urls: false,
        no_filler: false,
        json: false,
    }
}

/// Error message for `-o` without a value.
pub open spec fn missing_output_msg() -> Seq<char> {
    "missing value for --output"@
}

/// Error message for `-m` without a value.
pub open spec fn missing_map_msg() -> Seq<char> {
    "missing value for --map"@
}

/// Error message for an option the tool does not know.
pub open spec fn unknown_option_msg(arg: Seq<char>) -> Seq<char> {
    "unknown option: "@ + arg
}

/// Error message for a second input file.
pub open spec fn unexpected_argument_msg(arg: Seq<char>) -> Seq<char> {
    "unexpected argument: "@ + arg
}

/// The arguments from index `i` on, read into `a`: `-o`/`--output` and
/// `-m`/`--map` take the next argument as their value, the `--no-*` flags
/// switch a stage off, `--inline` changes nothing, `--json` asks for JSON
/// statistics, any other argument that starts with `-` is an error, and the
/// one remaining argument is the input file.
pub open spec fn parse_from(args: Seq<Seq<char>>, i: int, a: ArgsModel) -> Result<ArgsModel, Seq<char>>
    decreases args.len() - i,
{
    if i < 0 || i >= args.len() {
        Ok(a)
    } else {
        let arg = args[i];
        if arg == "-o"@ || arg == "--output"@ {
            if i + 1 < args.len() {
                parse_from(args, i + 2, ArgsModel { output: Some(args[i + 1]), ..a })
            } else {
                Err(missing_output_msg())
            }
        } else if arg == "-m"@ || arg == "--map"@ {
            if i + 1 < args.len() {
                parse_from(args, i + 2, ArgsModel { map: Some(args[i + 1]), ..a })
            } else {
                Err(missing_map_msg())
            }
        } else if arg == "--no-ws"@ {
            parse_from(args, i + 1, ArgsModel { no_ws: true, ..a })
        } else if arg == "--no-dedup"@ {
            parse_from(args, i + 1, ArgsModel { no_dedup: true, ..a })
        } else if arg == "--no-urls"@ {
            parse_from(args, i + 1, ArgsModel { no_urls: true, ..a })
        } else if arg == "--no-filler"@ {
            parse_from(args, i + 1, ArgsModel { no_filler: true, ..a })
        } else if arg == "--inline"@ {
            parse_from(args, i + 1, a)
        } else if arg == "--json"@ {
            parse_from(args, i + 1, ArgsModel { json: true, ..a })
        } else if arg.len() > 0 && arg[0] == '-' {
            Err(unknown_option_msg(arg))
        } else if a.file is Some {
            Err(unexpected_argument_msg(arg))
        } else {
            parse_from(args, i + 1, ArgsModel { file: Some(arg), ..a })
        }
    }
}

/// The characters of each argument.
pub open spec fn args_view(args: Seq<String>) -> Seq<Seq<char>> {
    Seq::new(args.len(), |i: int| args[i]@)
}

/// Whether `arg` is `lit`.
fn is(arg: &Vec<char>, lit: &str) -> (r: bool)
    ensures
        r == (arg@ == lit@),
{
    let l = chars_of(lit);
    chars_eq(arg.as_slice(), l.as_slice())
}

/// Reads the options that follow the command.
pub fn parse_args(rest: &[String]) -> (r: Result<Args, TcError>)
    ensures
        match parse_from(args_view(rest@), 0, no_args()) {
            Ok(m) => r matches Ok(a) && a@ == m,
            Err(msg) => r matches Err(e) && e.msg@ == msg,
        },
{
    let ghost args = args_view(rest@);
    let mut a = Args {
        file: None,
        output: None,
        map: None,
        no_ws: false,
        no_dedup: false,
        no_urls: false,
        no_filler: false,
        json: false,
    };
    let mut i: usize = 0;
    while i < rest.len()
        invariant
            args == args_view(rest@),
            parse_from(args, i as int, a@) == parse_from(args, 0, no_args()),
        decreases rest@.len() - i,
    {
        let arg = chars_of(rest[i].as_str());
        assert(arg@ == args[i as int]);
        if is(&arg, "-o") || is(&arg, "--output") {
            if i + 1 < rest.len() {
                a.output = Some(text_of(rest[i + 1].as_str()));
                i += 2;
            } else {
                proof {
                    reveal_strlit("missing value for --output");
                }
                return Err(TcError::new(text_of("missing value for --output")));
            }
        } else if is(&arg, "-m") || is(&arg, "--map") {
            if i + 1 < rest.len() {
                a.map = Some(text_of(rest[i + 1].as_str()));
                i += 2;
            } else {
                proof {
                    reveal_strlit("missing value for --map");
                }
                return Err(TcError::new(text_of("missing value for --map")));
            }
        } else if is(&arg, "--no-ws") {
            a.no_ws = true;
            i += 1;
        } else if is(&arg, "--no-dedup") {
            a.no_dedup = true;
            i += 1;
        } else if is(&arg, "--no-urls") {
            a.no_urls = true;
            i += 1;
        } else if is(&arg, "--no-filler") {
            a.no_filler = true;
            i += 1;
        } else if is(&arg, "--inline") {
            i += 1;
        } else if is(&arg, "--json") {
            a.json = true;
            i += 1;
        } else if arg.len() > 0 && arg[0] == '-' {
            proof {
                reveal_strlit("");
            }
            return Err(TcError::new(text_with_chars("unknown option: ", arg.as_slice(), "")));
        } else if a.file.is_some() {
            proof {
                reveal_strlit("");
            }
            return Err(TcError::new(text_with_chars("unexpected argument: ", arg.as_slice(), "")));
        } else {
            a.file = Some(text_of(rest[i].as_str()));
            i += 1;
        }
    }
    Ok(a)
}

impl Args {
    /// The stages to run: every stage not switched off.
    pub fn options(&self) -> (o: Options)
        ensures
            o.ws == !self.no_ws,
            o.dedup == !self.no_dedup,
            o.urls == !self.no_urls,
            o.filler == !self.no_filler,
    {
        Options { ws: !self.no_ws, dedup: !self.no_dedup, urls: !self.no_urls, filler: !self.no_filler }
    }
}

/// What the first argument asks for.
#[derive(Debug, Clone, PartialEq, Eq)]
pub enum Command {
    Version,
    Help,
    Compress,
    Expand,
    Stats,
    /// An unknown command, with its name.
    Unknown(String),
}

/// [`Command`] as a mathematical value.
pub ghost enum CommandModel {
    Version,
    Help,
    Compress,
    Expand,
    Stats,
    Unknown(Seq<char>),
}

/// The command the first argument names; no argument asks for help.
pub open spec fn command_spec(first: Option<Seq<char>>) -> CommandModel {
    match first {
        None => CommandModel::Help,
        Some(f) => if f == "--version"@ {
            CommandModel::Version
        } else if f == "--help"@ || f == "-h"@ {
            CommandModel::Help
        } else if f == "compress"@ {
            CommandModel::Compress
        } else if f == "expand"@ {
            CommandModel::Expand
        } else if f == "stats"@ {
            CommandModel::Stats
        } else {
            CommandModel::Unknown(f)
        },
    }
}

/// A [`Command`] as a mathematical value.
pub open spec fn command_view(c: Command) -> CommandModel {
    match c {
        Command::Version => CommandModel::Version,
        Command::Help => CommandModel::Help,
        Command::Compress => CommandModel::Compress,
        Command::Expand => CommandModel::Expand,
        Command::Stats => CommandModel::Stats,
        Command::Unknown(s) => CommandModel::Unknown(s@),
    }
}

/// Reads the command from the first argument.
pub fn command_of(first: Option<&str>) -> (c: Command)
    ensures
        command_view(c) == command_spec(
            match first {
                Some(f) => Some(f@),
                None => None,
            },
        ),
{
    match first {
        None => Command::Help,
        Some(f) => {
            let v = chars_of(f);
            if is(&v, "--version") {
                Command::Version
            } else if is(&v, "--help") || is(&v, "-h") {
                Command::Help
            } else if is(&v, "compress") {
                Command::Compress
            } else if is(&v, "expand") {
                Command::Expand
            } else if is(&v, "stats") {
                Command::Stats
            } else {
                Command::Unknown(text_of(f))
            }
        },
    }
}

/// The stage flags and `--json`, by number.
pub open spec fn flag_name(k: int) -> Seq<char> {
    if k == 0 {
        "--no-ws"@
    } else if k == 1 {
        "--no-dedup"@
    } else if k == 2 {
        "--no-urls"@
    } else if k == 3 {
        "--no-filler"@
    } else {
        "--json"@
    }
}

/// The field each flag sets, by number.
pub open spec fn flag_value(m: ArgsModel, k: int) -> bool {
    if k == 0 {
        m.no_ws
    } else if k == 1 {
        m.no_dedup
    } else if k == 2 {
        m.no_urls
    } else if k == 3 {
        m.no_filler
    } else {
        m.json
    }
}

/// An option that takes the next argument as its value.
pub open spec fn takes_value(arg: Seq<char>) -> bool {
    arg == "-o"@ || arg == "--output"@ || arg == "-m"@ || arg == "--map"@
}

proof fn lemma_names_distinct()
    ensures
        forall|k: int, l: int| 0 <= k < 5 && 0 <= l < 5 && k != l ==> flag_name(k) != flag_name(l),
        forall|k: int| 0 <= k < 5 ==> !takes_value(#[trigger] flag_name(k)) && flag_name(k)
            != "--inline"@ && flag_name(k).len() > 0 && flag_name(k)[0] == '-',
{
    reveal_strlit("--no-ws");
    reveal_strlit("--no-dedup");
    reveal_strlit("--no-urls");
    reveal_strlit("--no-filler");
    reveal_strlit("--json");
    reveal_strlit("--inline");
    reveal_strlit("-o");
    reveal_strlit("--output");
    reveal_strlit("-m");
    reveal_strlit("--map");
    assert("--no-ws"@.len() == 7 && "--no-dedup"@.len() == 10 && "--no-urls"@.len() == 9
        && "--no-filler"@.len() == 11 && "--json"@.len() == 6);
    assert forall|k: int| 0 <= k < 5 implies !takes_value(#[trigger] flag_name(k)) && flag_name(k)
        != "--inline"@ && flag_name(k).len() > 0 && flag_name(k)[0] == '-' by {
        assert(flag_name(k)[2] != "--output"@[2]);
        assert(flag_name(k)[2] != "--map"@[2]);
    }
}

/// Reading one argument that is not an option with a value: the arguments
/// model after it.
pub open spec fn after_flag(a: ArgsModel, arg: Seq<char>) -> ArgsModel {
    if arg == "--no-ws"@ {
        ArgsModel { no_ws: true, ..a }
    } else if arg == "--no-dedup"@ {
        ArgsModel { no_dedup: true, ..a }
    } else if arg == "--no-urls"@ {
        ArgsModel { no_urls: true, ..a }
    } else if arg == "--no-filler"@ {
        ArgsModel { no_filler: true, ..a }
    } else if arg == "--json"@ {
        ArgsModel { json: true, ..a }
    } else if arg == "--inline"@ || (arg.len() > 0 && arg[0] == '-') || a.file is Some {
        a
    } else {
        ArgsModel { file: Some(arg), ..a }
    }
}

proof fn lemma_after_flag(a: ArgsModel, arg: Seq<char>, k: int)
    requires
        0 <= k < 5,
    ensures
        flag_value(after_flag(a, arg), k) == (flag_value(a, k) || arg == flag_name(k)),
{
    lemma_names_distinct();
    reveal_strlit("--no-ws");
    reveal_strlit("--no-dedup");
    reveal_strlit("--no-urls");
    reveal_strlit("--no-filler");
    reveal_strlit("--json");
    if k == 0 {
    } else if k == 1 {
    } else if k == 2 {
    } else if k == 3 {
    } else {
    }
}

proof fn lemma_flag_from(args: Seq<Seq<char>>, i: int, a: ArgsModel, k: int)
    requires
        0 <= k < 5,
        0 <= i,
        forall|j: int| 0 <= j < args.len() ==> !takes_value(#[trigger] args[j]),
    ensures
        parse_from(args, i, a) matches Ok(m) ==> (flag_value(m, k) <==> (flag_value(a, k) || exists|
            j: int,
        | i <= j < args.len() && #[trigger] args[j] == flag_name(k))),
    decreases args.len() - i,
{
    if i < args.len() {
        let arg = args[i];
        assert(!takes_value(arg));
        let a2 = after_flag(a, arg);
        assert(!(arg == "-o"@ || arg == "--output"@));
        assert(!(arg == "-m"@ || arg == "--map"@));
        reveal_strlit("--no-ws");
        reveal_strlit("--no-dedup");
        reveal_strlit("--no-urls");
        reveal_strlit("--no-filler");
        reveal_strlit("--json");
        reveal_strlit("--inline");
        if parse_from(args, i, a) is Ok {
            if arg == "--no-ws"@ || arg == "--no-dedup"@ || arg == "--no-urls"@ || arg
                == "--no-filler"@ || arg == "--inline"@ || arg == "--json"@ {
                assert(parse_from(args, i, a) == parse_from(args, i + 1, a2));
            } else if arg.len() > 0 && arg[0] == '-' {
                assert(parse_from(args, i, a) is Err);
            } else if a.file is Some {
                assert(parse_from(args, i, a) is Err);
            } else {
                assert(parse_from(args, i, a) == parse_from(args, i + 1, a2));
            }
        }
        lemma_flag_from(args, i + 1, a2, k);
        lemma_after_flag(a, arg, k);
        let name = flag_name(k);
        let e_all = exists|j: int| i <= j < args.len() && #[trigger] args[j] == name;
        let e_rest = exists|j: int| i + 1 <= j < args.len() && #[trigger] args[j] == name;
        assert(e_all <==> (arg == name || e_rest)) by {
            if e_all {
                let j = choose|j: int| i <= j < args.len() && #[trigger] args[j] == name;
                if j > i {
                    assert(e_rest);
                }
            }
            if arg == name {
                assert(args[i] == name);
            }
            if e_rest {
                let j = choose|j: int| i + 1 <= j < args.len() && #[trigger] args[j] == name;
                assert(args[j] == name);
            }
        }
    }
}

/// Each of `--no-ws`, `--no-dedup`, `--no-urls`, `--no-filler` and `--json`
/// sets its own field and no other: in arguments without options that take a
/// value, a successful parse has the field set exactly when the flag is
/// among the arguments.
pub proof fn lemma_flags(args: Seq<Seq<char>>)
    requires
        forall|j: int| 0 <= j < args.len() ==> !takes_value(#[trigger] args[j]),
    ensures
        parse_from(args, 0, no_args()) matches Ok(m) ==> {
            &&& m.no_ws <==> args.contains("--no-ws"@)
            &&& m.no_dedup <==> args.contains("--no-dedup"@)
            &&& m.no_urls <==> args.contains("--no-urls"@)
            &&& m.no_filler <==> args.contains("--no-filler"@)
            &&& m.json <==> args.contains("--json"@)
        },
{
    lemma_flag_from(args, 0, no_args(), 0);
    lemma_flag_from(args, 0, no_args(), 1);
    lemma_flag_from(args, 0, no_args(), 2);
    lemma_flag_from(args, 0, no_args(), 3);
    lemma_flag_from(args, 0, no_args(), 4);
}

/// `-o`/`--output` and `-m`/`--map` take the next argument as the output
/// file and the map file, whatever it looks like; with no next argument the
/// parse fails with a message naming the option.
pub proof fn lemma_value_options(args: Seq<Seq<char>>, i: int, a: ArgsModel)
    requires
        0 <= i < args.len(),
    ensures
        (args[i] == "-o"@ || args[i] == "--output"@) ==> parse_from(args, i, a) == if i + 1
            < args.len() {
            parse_from(args, i + 2, ArgsModel { output: Some(args[i + 1]), ..a })
        } else {
            Err("missing value for --output"@)
        },
        (args[i] == "-m"@ || args[i] == "--map"@) ==> parse_from(args, i, a) == if i + 1
            < args.len() {
            parse_from(args, i + 2, ArgsModel { map: Some(args[i + 1]), ..a })
        } else {
            Err("missing value for --map"@)
        },
{
    reveal_strlit("-o");
    reveal_strlit("--output");
    reveal_strlit("-m");
    reveal_strlit("--map");
    assert("-m"@[1] != "-o"@[1]);
    assert("--map"@.len() != "--output"@.len());
    assert("--map"@.len() != "-o"@.len());
    assert("-m"@.len() != "--output"@.len());
}

proof fn lemma_file_from(args: Seq<Seq<char>>, i: int, a: ArgsModel)
    requires
        0 <= i,
        forall|j: int| 0 <= j < args.len() ==> !takes_value(#[trigger] args[j]),
    ensures
        parse_from(args, i, a) matches Ok(m) ==> match a.file {
            Some(f) => m.file == Some(f) && forall|j: int|
                i <= j < args.len() ==> !plain(#[trigger] args[j]),
            None => match m.file {
                Some(f) => exists|j: int| i <= j < args.len() && #[trigger] args[j] == f && plain(f),
                None => forall|j: int| i <= j < args.len() ==> !plain(#[trigger] args[j]),
            },
        },
    decreases args.len() - i,
{
    reveal_strlit("--no-ws");
    reveal_strlit("--no-dedup");
    reveal_strlit("--no-urls");
    reveal_strlit("--no-filler");
    reveal_strlit("--json");
    reveal_strlit("--inline");
    if i < args.len() {
        let arg = args[i];
        assert(!takes_value(arg));
        let a2 = after_flag(a, arg);
        lemma_file_from(args, i + 1, a2);
        if parse_from(args, i, a) is Ok {
            if arg == "--no-ws"@ || arg == "--no-dedup"@ || arg == "--no-urls"@ || arg
                == "--no-filler"@ || arg == "--inline"@ || arg == "--json"@ {
                assert(parse_from(args, i, a) == parse_from(args, i + 1, a2));
                assert(!plain(arg));
            } else if arg.len() > 0 && arg[0] == '-' {
                assert(parse_from(args, i, a) is Err);
            } else if a.file is Some {
                assert(parse_from(args, i, a) is Err);
            } else {
                assert(parse_from(args, i, a) == parse_from(args, i + 1, a2));
                assert(plain(arg));
                assert(args[i] == arg);
            }
        }
    }
}

/// An argument that names the input file: one that does not start with `-`.
pub open spec fn plain(arg: Seq<char>) -> bool {
    !(arg.len() > 0 && arg[0] == '-')
}

/// The input file is an argument that does not start with `-`: in arguments
/// without options that take a value,
/// a successful parse names a file that is among them exactly when one is.
pub proof fn lemma_file_argument(args: Seq<Seq<char>>)
    requires
        forall|j: int| 0 <= j < args.len() ==> !takes_value(#[trigger] args[j]),
    ensures
        parse_from(args, 0, no_args()) matches Ok(m) ==> match m.file {
            Some(f) => args.contains(f) && plain(f),
            None => forall|j: int| 0 <= j < args.len() ==> !plain(#[trigger] args[j]),
        },
{
    lemma_file_from(args, 0, no_args());
    if let Ok(m) = parse_from(args, 0, no_args()) {
        if let Some(f) = m.file {
            let j = choose|j: int| 0 <= j < args.len() && #[trigger] args[j] == f && plain(f);
            assert(args[j] == f);
        }
    }
}

} // verus!
