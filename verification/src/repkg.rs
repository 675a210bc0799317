//! The external extractor's command lines, built as data. The unverified
//! shell spawns the process; the functions here fix which arguments it gets,
//! which executable path is chosen, and how its exit is interpreted.

use vstd::prelude::*;

use crate::errors::PipelineError;

verus! {

/// Options of the extractor's `extract` command.
#[derive(Debug)]
pub struct ExtractOptions {
    pub output: Option<String>,
    pub ignore_exts: Option<String>,
    pub only_exts: Option<String>,
    pub debug_info: bool,
    pub tex: bool,
    pub single_dir: bool,
    pub recursive: bool,
    pub copy_project: bool,
    pub use_name: bool,
    pub no_tex_convert: bool,
    pub overwrite: bool,
}

/// Options of the extractor's `info` command.
#[derive(Debug)]
pub struct InfoOptions {
    pub sort: bool,
    pub sort_by: Option<String>,
    pub tex: bool,
    pub project_info: Option<String>,
    pub print_entries: bool,
    pub title_filter: Option<String>,
}

/// A flag followed by its value, when the value is given.
pub open spec fn opt_flag(flag: Seq<char>, v: Option<String>) -> Seq<Seq<char>> {
    match v {
        Some(s) => seq![flag, s@],
        None => Seq::empty(),
    }
}

/// A bare flag, when it is switched on.
pub open spec fn bool_flag(flag: Seq<char>, b: bool) -> Seq<Seq<char>> {
    if b {
        seq![flag]
    } else {
        Seq::empty()
    }
}

/// The argument list of an `extract` invocation.
pub open spec fn spec_extract_args(o: ExtractOptions, input: Seq<char>) -> Seq<Seq<char>> {
    seq!["extract"@] + opt_flag("-o"@, o.output) + opt_flag("-i"@, o.ignore_exts) + opt_flag(
        "-e"@,
        o.only_exts,
    ) + bool_flag("-d"@, o.debug_info) + bool_flag("-t"@, o.tex) + bool_flag("-s"@, o.single_dir)
        + bool_flag("-r"@, o.recursive) + bool_flag("-c"@, o.copy_project) + bool_flag(
        "-n"@,
        o.use_name,
    ) + bool_flag("--no-tex-convert"@, o.no_tex_convert) + bool_flag("--overwrite"@, o.overwrite)
        + seq![input]
}

/// The argument list of an `info` invocation.
pub open spec fn spec_info_args(o: InfoOptions, input: Seq<char>) -> Seq<Seq<char>> {
    seq!["info"@] + bool_flag("-s"@, o.sort) + opt_flag("-b"@, o.sort_by) + bool_flag("-t"@, o.tex)
        + opt_flag("-p"@, o.project_info) + bool_flag("-e"@, o.print_entries) + opt_flag(
        "--title-filter"@,
        o.title_filter,
    ) + seq![input]
}

fn push_opt(args: &mut Vec<String>, flag: &str, v: &Option<String>, Ghost(fl): Ghost<Seq<char>>)
    requires
        flag@ == fl,
    ensures
        final(args).deep_view() == old(args).deep_view() + opt_flag(fl, *v),
{
    let ghost before = args.deep_view();
    match v {
        Some(s) => {
            args.push(flag.to_owned());
            args.push(s.clone());
            proof {
                assert(args.deep_view() =~= before + opt_flag(fl, *v));
            }
        },
        None => {
            proof {
                assert(args.deep_view() =~= before + opt_flag(fl, *v));
            }
        },
    }
}

fn push_bool(args: &mut Vec<String>, flag: &str, b: bool, Ghost(fl): Ghost<Seq<char>>)
    requires
        flag@ == fl,
    ensures
        final(args).deep_view() == old(args).deep_view() + bool_flag(fl, b),
{
    let ghost before = args.deep_view();
    if b {
        args.push(flag.to_owned());
    }
    proof {
        assert(args.deep_view() =~= before + bool_flag(fl, b));
    }
}

/// Build the extractor's `extract` command line.
pub fn extract_args(input: &str, options: &ExtractOptions) -> (r: Vec<String>)
    ensures
        r.deep_view() == spec_extract_args(*options, input@),
{
    let mut args: Vec<String> = Vec::new();
    args.push("extract".to_owned());
    proof {
        assert(args.deep_view() =~= seq!["extract"@]);
    }
    push_opt(&mut args, "-o", &options.output, Ghost("-o"@));
    push_opt(&mut args, "-i", &options.ignore_exts, Ghost("-i"@));
    push_opt(&mut args, "-e", &options.only_exts, Ghost("-e"@));
    push_bool(&mut args, "-d", options.debug_info, Ghost("-d"@));
    push_bool(&mut args, "-t", options.tex, Ghost("-t"@));
    push_bool(&mut args, "-s", options.single_dir, Ghost("-s"@));
    push_bool(&mut args, "-r", options.recursive, Ghost("-r"@));
    push_bool(&mut args, "-c", options.copy_project, Ghost("-c"@));
    push_bool(&mut args, "-n", options.use_name, Ghost("-n"@));
    push_bool(&mut args, "--no-tex-convert", options.no_tex_convert, Ghost("--no-tex-convert"@));
    push_bool(&mut args, "--overwrite", options.overwrite, Ghost("--overwrite"@));
    let ghost before = args.deep_view();
    args.push(input.to_owned());
    proof {
        assert(args.deep_view() =~= before + seq![input@]);
        assert(args.deep_view() =~= spec_extract_args(*options, input@));
    }
    args
}

/// Build the extractor's `info` command line.
pub fn info_args(input: &str, options: &InfoOptions) -> (r: Vec<String>)
    ensures
        r.deep_view() == spec_info_args(*options, input@),
{
    let mut args: Vec<String> = Vec::new();
    args.push("info".to_owned());
    proof {
        assert(args.deep_view() =~= seq!["info"@]);
    }
    push_bool(&mut args, "-s", options.sort, Ghost("-s"@));
    push_opt(&mut args, "-b", &options.sort_by, Ghost("-b"@));
    push_bool(&mut args, "-t", options.tex, Ghost("-t"@));
    push_opt(&mut args, "-p", &options.project_info, Ghost("-p"@));
    push_bool(&mut args, "-e", options.print_entries, Ghost("-e"@));
    push_opt(&mut args, "--title-filter", &options.title_filter, Ghost("--title-filter"@));
    let ghost before = args.deep_view();
    args.push(input.to_owned());
    proof {
        assert(args.deep_view() =~= before + seq![input@]);
        assert(args.deep_view() =~= spec_info_args(*options, input@));
    }
    args
}

/// Which executable path the shell should use: the development location if
/// it exists, else the location beside the executable if that exists, else
/// the development location as the reported default.
pub open spec fn spec_choose_tool_path(
    dev: Seq<char>,
    dev_exists: bool,
    prod: Option<Seq<char>>,
    prod_exists: bool,
) -> Seq<char> {
    if dev_exists {
        dev
    } else if prod is Some && prod_exists {
        prod->0
    } else {
        dev
    }
}

/// Choose the extractor's executable path from the probed candidates.
pub fn choose_tool_path(dev: String, dev_exists: bool, prod: Option<String>, prod_exists: bool) -> (
    r: String)
    ensures
        r@ == spec_choose_tool_path(dev@, dev_exists, prod.deep_view(), prod_exists),
{
    if dev_exists {
        return dev;
    }
    if prod_exists {
        if let Some(p) = prod {
            return p;
        }
    }
    dev
}

/// Interpret the extractor's exit: success hands back its standard output
/// verbatim; failure surfaces the captured standard error.
pub fn command_outcome(exit_ok: bool, stdout: String, stderr: String) -> (r: Result<
    String,
    PipelineError,
>)
    ensures
        exit_ok ==> r == Ok::<String, PipelineError>(stdout),
        !exit_ok ==> r == Err::<String, PipelineError>(PipelineError::SubprocessFailed(stderr)),
{
    if exit_ok {
        Ok(stdout)
    } else {
        Err(PipelineError::SubprocessFailed(stderr))
    }
}

} // verus!
