//! The converter's command line:
//!
//!     vex-convert model.gltf [-o model.vec] [--crease 30]
//!
//! Arguments are read left to right. `-h`/`--help` asks for the usage text;
//! `-o`/`--output` takes the next argument as the output path; `--crease`
//! takes the next argument as the crease angle in degrees; the first
//! argument not starting with `-` is the input. Anything else is an error.
//! Without an input the usage text is shown.
//!
//! Whether an argument reads as a number is decided by the caller (float
//! parsing); this module takes that answer per argument.

use vstd::prelude::*;

verus! {

/// What the converter was asked to do.
pub struct CliArgs {
    /// The glTF file to read.
    pub input: String,
    /// Where to write, if given (else next to the input, as `.vec`).
    pub output: Option<String>,
    /// The last crease angle given, as written.
    pub crease: Option<String>,
}

/// A command line the converter refuses.
#[derive(Debug)]
pub enum CliError {
    /// `-o` as the last argument.
    MissingOutputPath,
    /// `--crease` as the last argument.
    MissingCreaseValue,
    /// `--crease` followed by something that is not a number.
    CreaseNotNumber(String),
    /// An option the converter does not know, or a second input.
    UnknownArgument(String),
}

/// The meaning of a command line.
pub enum ArgsMeaning {
    /// Show the usage text.
    Usage,
    Convert { input: Seq<char>, output: Option<Seq<char>>, crease: Option<Seq<char>> },
    MissingOutputPath,
    MissingCreaseValue,
    CreaseNotNumber(Seq<char>),
    UnknownArgument(Seq<char>),
}

pub open spec fn help_short() -> Seq<char> {
    seq!['-', 'h']
}

pub open spec fn help_long() -> Seq<char> {
    seq!['-', '-', 'h', 'e', 'l', 'p']
}

pub open spec fn output_short() -> Seq<char> {
    seq!['-', 'o']
}

pub open spec fn output_long() -> Seq<char> {
    seq!['-', '-', 'o', 'u', 't', 'p', 'u', 't']
}

pub open spec fn crease_flag() -> Seq<char> {
    seq!['-', '-', 'c', 'r', 'e', 'a', 's', 'e']
}

pub open spec fn starts_with_dash(a: Seq<char>) -> bool {
    a.len() > 0 && a[0] == '-'
}

/// The meaning of `args[i..]`, given what the earlier arguments set.
pub open spec fn meaning_from(
    args: Seq<Seq<char>>,
    numeric: Seq<bool>,
    i: int,
    input: Option<Seq<char>>,
    output: Option<Seq<char>>,
    crease: Option<Seq<char>>,
) -> ArgsMeaning
    decreases args.len() - i,
{
    if i < 0 || i >= args.len() {
        match input {
            None => ArgsMeaning::Usage,
            Some(inp) => ArgsMeaning::Convert { input: inp, output, crease },
        }
    } else {
        let a = args[i];
        if a == help_short() || a == help_long() {
            ArgsMeaning::Usage
        } else if a == output_short() || a == output_long() {
            if i + 1 < args.len() {
                meaning_from(args, numeric, i + 2, input, Some(args[i + 1]), crease)
            } else {
                ArgsMeaning::MissingOutputPath
            }
        } else if a == crease_flag() {
            if i + 1 >= args.len() {
                ArgsMeaning::MissingCreaseValue
            } else if !numeric[i + 1] {
                ArgsMeaning::CreaseNotNumber(args[i + 1])
            } else {
                meaning_from(args, numeric, i + 2, input, output, Some(args[i + 1]))
            }
        } else if !starts_with_dash(a) && input is None {
            meaning_from(args, numeric, i + 1, Some(a), output, crease)
        } else {
            ArgsMeaning::UnknownArgument(a)
        }
    }
}

pub open spec fn strings_view(args: Seq<String>) -> Seq<Seq<char>> {
    args.map_values(|s: String| s@)
}

pub open spec fn opt_view(o: Option<String>) -> Option<Seq<char>> {
    match o {
        Some(s) => Some(s@),
        None => None,
    }
}

/// The meaning of a whole command line.
pub open spec fn args_meaning(args: Seq<String>, numeric: Seq<bool>) -> ArgsMeaning {
    meaning_from(strings_view(args), numeric, 0, None, None, None)
}

fn text_is(a: &String, lit: &str) -> (b: bool)
    ensures
        b == (a@ == lit@),
{
    *a == lit.to_owned()
}

fn starts_with_dash_exec(a: &String) -> (b: bool)
    ensures
        b == starts_with_dash(a@),
{
    let s = a.as_str();
    if s.is_empty() {
        false
    } else {
        s.get_char(0) == '-'
    }
}

/// Read the converter's command line. `numeric[i]` says whether `args[i]`
/// reads as a number. `Ok(None)` asks for the usage text.
pub fn parse_args(args: &Vec<String>, numeric: &Vec<bool>) -> (r: Result<Option<CliArgs>, CliError>)
    requires
        numeric@.len() == args@.len(),
    ensures
        match args_meaning(args@, numeric@) {
            ArgsMeaning::Usage => r matches Ok(None),
            ArgsMeaning::Convert { input, output, crease } => r matches Ok(Some(a)) && a.input@ == input
                && opt_view(a.output) == output && opt_view(a.crease) == crease,
            ArgsMeaning::MissingOutputPath => r matches Err(CliError::MissingOutputPath),
            ArgsMeaning::MissingCreaseValue => r matches Err(CliError::MissingCreaseValue),
            ArgsMeaning::CreaseNotNumber(v) => r matches Err(CliError::CreaseNotNumber(s)) && s@ == v,
            ArgsMeaning::UnknownArgument(v) => r matches Err(CliError::UnknownArgument(s)) && s@ == v,
        },
{
    proof {
        reveal_strlit("-h");
        reveal_strlit("--help");
        reveal_strlit("-o");
        reveal_strlit("--output");
        reveal_strlit("--crease");
        assert("-h"@ =~= help_short());
        assert("--help"@ =~= help_long());
        assert("-o"@ =~= output_short());
        assert("--output"@ =~= output_long());
        assert("--crease"@ =~= crease_flag());
    }
    let ghost sv = strings_view(args@);
    let n = args.len();
    let mut input: Option<String> = None;
    let mut output: Option<String> = None;
    let mut crease: Option<String> = None;
    let mut i: usize = 0;
    while i < n
        invariant
            n == args@.len(),
            numeric@.len() == n,
            sv == strings_view(args@),
            i <= n + 1,
            "-h"@ == help_short(),
            "--help"@ == help_long(),
            "-o"@ == output_short(),
            "--output"@ == output_long(),
            "--crease"@ == crease_flag(),
            meaning_from(sv, numeric@, i as int, opt_view(input), opt_view(output), opt_view(crease))
                == args_meaning(args@, numeric@),
        decreases n + 1 - i,
    {
        let a = &args[i];
        assert(sv[i as int] == a@);
        if text_is(a, "-h") || text_is(a, "--help") {
            return Ok(None);
        } else if text_is(a, "-o") || text_is(a, "--output") {
            if i + 1 < n {
                output = Some(args[i + 1].clone());
                assert(sv[i + 1] == args@[i + 1]@);
                i += 2;
            } else {
                return Err(CliError::MissingOutputPath);
            }
        } else if text_is(a, "--crease") {
            if i + 1 >= n {
                return Err(CliError::MissingCreaseValue);
            }
            assert(sv[i + 1] == args@[i + 1]@);
            if !numeric[i + 1] {
                return Err(CliError::CreaseNotNumber(args[i + 1].clone()));
            }
            crease = Some(args[i + 1].clone());
            i += 2;
        } else if !starts_with_dash_exec(a) && input.is_none() {
            input = Some(a.clone());
            i += 1;
        } else {
            return Err(CliError::UnknownArgument(a.clone()));
        }
    }
    match input {
        None => Ok(None),
        Some(inp) => Ok(Some(CliArgs { input: inp, output, crease })),
    }
}

} // verus!
