//! Command-line argument handling.
use vstd::prelude::*;

use crate::text::{chars_eq, chars_of, push_str, string_of};

verus! {

broadcast use vstd::std_specs::vec::group_vec_axioms;

/// Why the command line was refused.
#[derive(Debug)]
pub enum CliError {
    MissingInput,
    MissingArgument(String),
    UnknownCommand(String),
}

/// The mathematical value of a `CliError`.
pub enum CliErrorView {
    MissingInput,
    MissingArgument(Seq<char>),
    UnknownCommand(Seq<char>),
}

impl View for CliError {
    type V = CliErrorView;

    open spec fn view(&self) -> CliErrorView {
        match self {
            CliError::MissingInput => CliErrorView::MissingInput,
            CliError::MissingArgument(s) => CliErrorView::MissingArgument(s@),
            CliError::UnknownCommand(s) => CliErrorView::UnknownCommand(s@),
        }
    }
}

/// The text shown for a command-line error.
pub open spec fn error_message(e: CliErrorView) -> Seq<char> {
    match e {
        CliErrorView::MissingInput => "missing --input flag"@,
        CliErrorView::MissingArgument(flag) => "missing value for "@ + flag,
        CliErrorView::UnknownCommand(cmd) => "unknown command '"@ + cmd + "'"@,
    }
}

impl CliError {
    /// The text shown for this error.
    pub fn message(&self) -> (res: String)
        ensures
            res@ == error_message(self@),
    {
        match self {
            CliError::MissingInput => "missing --input flag".to_owned(),
            CliError::MissingArgument(flag) => {
                let mut m: Vec<char> = Vec::new();
                push_str(&mut m, "missing value for ");
                push_str(&mut m, flag.as_str());
                string_of(&m)
            },
            CliError::UnknownCommand(cmd) => {
                let mut m: Vec<char> = Vec::new();
                push_str(&mut m, "unknown command '");
                push_str(&mut m, cmd.as_str());
                push_str(&mut m, "'");
                assert(m@ =~= "unknown command '"@ + cmd@ + "'"@);
                string_of(&m)
            },
        }
    }
}

/// The settings of a run.
#[derive(Debug)]
pub struct CliArgs {
    pub input: String,
    pub allowlist: Option<String>,
    pub out: String,
}

/// The mathematical value of `CliArgs`.
pub struct CliArgsView {
    pub input: Seq<char>,
    pub allowlist: Option<Seq<char>>,
    pub out: Seq<char>,
}

pub open spec fn opt_view(o: Option<String>) -> Option<Seq<char>> {
    match o {
        Some(s) => Some(s@),
        None => None,
    }
}

impl View for CliArgs {
    type V = CliArgsView;

    open spec fn view(&self) -> CliArgsView {
        CliArgsView { input: self.input@, allowlist: opt_view(self.allowlist), out: self.out@ }
    }
}

/// The flag values seen so far while scanning the arguments.
pub struct ScanState {
    pub input: Option<Seq<char>>,
    pub allowlist: Option<Seq<char>>,
    pub out: Option<Seq<char>>,
}

/// Scans the arguments from position `i`: `validate` is skipped, each of
/// `--input`, `--allowlist` and `--out` takes the next argument (a later one
/// wins), any other argument that starts with `-` is refused, a first argument
/// that is not a flag is an unknown command, and other arguments are ignored.
pub open spec fn scan(args: Seq<Seq<char>>, i: nat, st: ScanState) -> Result<ScanState, CliErrorView>
    decreases args.len() - i,
{
    if i >= args.len() {
        Ok(st)
    } else {
        let a = args[i as int];
        if a == "validate"@ {
            scan(args, i + 1, st)
        } else if a == "--input"@ {
            if i + 1 >= args.len() {
                Err(CliErrorView::MissingArgument("--input"@))
            } else {
                scan(args, i + 2, ScanState { input: Some(args[i + 1 as int]), ..st })
            }
        } else if a == "--allowlist"@ {
            if i + 1 >= args.len() {
                Err(CliErrorView::MissingArgument("--allowlist"@))
            } else {
                scan(args, i + 2, ScanState { allowlist: Some(args[i + 1 as int]), ..st })
            }
        } else if a == "--out"@ {
            if i + 1 >= args.len() {
                Err(CliErrorView::MissingArgument("--out"@))
            } else {
                scan(args, i + 2, ScanState { out: Some(args[i + 1 as int]), ..st })
            }
        } else if a.len() > 0 && a[0] == '-' {
            Err(CliErrorView::MissingArgument(a))
        } else if i == 1 {
            Err(CliErrorView::UnknownCommand(a))
        } else {
            scan(args, i + 1, st)
        }
    }
}

/// The outcome of parsing a whole command line (the first argument is the program name).
pub open spec fn spec_parse_args(args: Seq<Seq<char>>) -> Result<CliArgsView, CliErrorView> {
    match scan(args, 1, ScanState { input: None, allowlist: None, out: None }) {
        Err(e) => Err(e),
        Ok(st) => match st.input {
            None => Err(CliErrorView::MissingInput),
            Some(input) => Ok(
                CliArgsView {
                    input,
                    allowlist: st.allowlist,
                    out: match st.out {
                        Some(o) => o,
                        None => "report"@,
                    },
                },
            ),
        },
    }
}

pub open spec fn args_view(args: Seq<String>) -> Seq<Seq<char>> {
    args.map_values(|s: String| s@)
}

fn is_word(arg: &Vec<char>, word: &str) -> (res: bool)
    ensures
        res == (arg@ == word@),
{
    let w = chars_of(word);
    chars_eq(arg, &w)
}

/// Parses a command line given as its list of arguments (program name first).
pub fn parse_args(args: &[String]) -> (res: Result<CliArgs, CliError>)
    ensures
        match res {
            Ok(a) => spec_parse_args(args_view(args@)) == Ok::<CliArgsView, CliErrorView>(a@),
            Err(e) => spec_parse_args(args_view(args@)) == Err::<CliArgsView, CliErrorView>(e@),
        },
        res matches Ok(a) ==> flag_given(args_view(args@), 1, "--input"@, a.input@),
        res matches Ok(a) ==> (a.out@ == "report"@ || flag_given(
            args_view(args@),
            1,
            "--out"@,
            a.out@,
        )),
        flag_absent(args_view(args@), 1, "--input"@) ==> res is Err,
{
    proof {
        lemma_parse_args_values(args_view(args@));
    }
    let ghost av = args_view(args@);
    let n = args.len();
    let mut i: usize = 1;
    let mut input: Option<String> = None;
    let mut allowlist: Option<String> = None;
    let mut out: Option<String> = None;
    let ghost init = ScanState { input: None, allowlist: None, out: None };
    while i < n
        invariant
            n == args@.len(),
            av == args_view(args@),
            init == (ScanState { input: None, allowlist: None, out: None }),
            i >= 1,
            scan(av, 1, init) == scan(
                av,
                i as nat,
                ScanState { input: opt_view(input), allowlist: opt_view(allowlist), out: opt_view(out) },
            ),
        decreases n - i,
    {
        let ghost st = ScanState {
            input: opt_view(input),
            allowlist: opt_view(allowlist),
            out: opt_view(out),
        };
        let a = chars_of(args[i].as_str());
        assert(av[i as int] == a@);
        if is_word(&a, "validate") {
            i = i + 1;
        } else if is_word(&a, "--input") {
            if i + 1 >= n {
                return Err(CliError::MissingArgument("--input".to_owned()));
            }
            assert(av[i + 1] == args@[i + 1]@);
            input = Some(args[i + 1].clone());
            i = i + 2;
        } else if is_word(&a, "--allowlist") {
            if i + 1 >= n {
                return Err(CliError::MissingArgument("--allowlist".to_owned()));
            }
            assert(av[i + 1] == args@[i + 1]@);
            allowlist = Some(args[i + 1].clone());
            i = i + 2;
        } else if is_word(&a, "--out") {
            if i + 1 >= n {
                return Err(CliError::MissingArgument("--out".to_owned()));
            }
            assert(av[i + 1] == args@[i + 1]@);
            out = Some(args[i + 1].clone());
            i = i + 2;
        } else if a.len() > 0 && a[0] == '-' {
            return Err(CliError::MissingArgument(args[i].clone()));
        } else if i == 1 {
            return Err(CliError::UnknownCommand(args[i].clone()));
        } else {
            i = i + 1;
        }
    }
    match input {
        None => Err(CliError::MissingInput),
        Some(input) => {
            let out = match out {
                Some(o) => o,
                None => "report".to_owned(),
            };
            Ok(CliArgs { input, allowlist, out })
        },
    }
}

/// `flag` is followed by `value` at some position from `from` on.
pub open spec fn flag_given(args: Seq<Seq<char>>, from: int, flag: Seq<char>, value: Seq<char>) -> bool {
    exists|j: int| from <= j && j + 1 < args.len() && #[trigger] args[j] == flag && args[j + 1] == value
}

/// `flag` does not occur from position `from` on.
pub open spec fn flag_absent(args: Seq<Seq<char>>, from: int, flag: Seq<char>) -> bool {
    forall|j: int| from <= j < args.len() ==> #[trigger] args[j] != flag
}

/// Where the scan's values come from: a value it ends with is the one it
/// started with, or the argument right after the matching flag; a flag that
/// does not occur leaves its value alone.
proof fn lemma_scan_values(args: Seq<Seq<char>>, i: nat, st: ScanState)
    ensures
        scan(args, i, st) is Ok ==> ({
            let st2 = scan(args, i, st)->Ok_0;
            &&& st2.input is Some ==> st2.input == st.input || flag_given(
                args,
                i as int,
                "--input"@,
                st2.input->0,
            )
            &&& st2.allowlist is Some ==> st2.allowlist == st.allowlist || flag_given(
                args,
                i as int,
                "--allowlist"@,
                st2.allowlist->0,
            )
            &&& st2.out is Some ==> st2.out == st.out || flag_given(args, i as int, "--out"@, st2.out->0)
            &&& flag_absent(args, i as int, "--input"@) ==> st2.input == st.input
            &&& flag_absent(args, i as int, "--allowlist"@) ==> st2.allowlist == st.allowlist
            &&& flag_absent(args, i as int, "--out"@) ==> st2.out == st.out
        }),
    decreases args.len() - i,
{
    if i < args.len() && scan(args, i, st) is Ok {
        let a = args[i as int];
        if a == "validate"@ {
            lemma_scan_values(args, i + 1, st);
        } else if a == "--input"@ {
            let st1 = ScanState { input: Some(args[i + 1 as int]), ..st };
            lemma_scan_values(args, i + 2, st1);
        } else if a == "--allowlist"@ {
            let st1 = ScanState { allowlist: Some(args[i + 1 as int]), ..st };
            lemma_scan_values(args, i + 2, st1);
        } else if a == "--out"@ {
            let st1 = ScanState { out: Some(args[i + 1 as int]), ..st };
            lemma_scan_values(args, i + 2, st1);
        } else if a.len() > 0 && a[0] == '-' {
        } else if i == 1 {
        } else {
            lemma_scan_values(args, i + 1, st);
        }
    }
}

/// What a successful parse holds: the input is the argument after an
/// `--input` flag; the allowlist, if any, the argument after an
/// `--allowlist` flag; the output directory the argument after an `--out`
/// flag, or `report` when no `--out` is given. Without an `--input` flag the
/// command line is refused.
pub proof fn lemma_parse_args_values(args: Seq<Seq<char>>)
    ensures
        spec_parse_args(args) is Ok ==> ({
            let a = spec_parse_args(args)->Ok_0;
            &&& flag_given(args, 1, "--input"@, a.input)
            &&& a.allowlist is Some ==> flag_given(args, 1, "--allowlist"@, a.allowlist->0)
            &&& flag_absent(args, 1, "--allowlist"@) ==> a.allowlist is None
            &&& a.out == "report"@ || flag_given(args, 1, "--out"@, a.out)
            &&& flag_absent(args, 1, "--out"@) ==> a.out == "report"@
        }),
        flag_absent(args, 1, "--input"@) ==> spec_parse_args(args) is Err,
{
    lemma_scan_values(args, 1, ScanState { input: None, allowlist: None, out: None });
}

/// The texts of the command-line errors, with their literal wording.
pub proof fn lemma_error_messages(flag: Seq<char>)
    ensures
        error_message(CliErrorView::MissingInput) == "missing --input flag"@,
        error_message(CliErrorView::MissingArgument(flag)) == "missing value for "@ + flag,
        error_message(CliErrorView::UnknownCommand(flag)) == "unknown command '"@ + flag + "'"@,
{
}

} // verus!
