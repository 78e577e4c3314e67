//! What the program does before it serves: which configuration file it reads,
//! and whether it goes on with what it found there.
use crate::listing::{push_heading, push_line};
use crate::migux_config::validation::{ConfigReport, ReportView};
use crate::text::{
    self, chars_of, concat3, copy_str, is_empty, same_str, starts_with, string_of, tail_from,
};
use vstd::prelude::*;

verus! {

/// The configuration file that the arguments name, from one of them on.
pub open spec fn path_in_args(args: Seq<Seq<char>>, i: int) -> Option<Seq<char>>
    decreases args.len() - i,
{
    if i >= args.len() {
        None
    } else if (args[i] == "-c"@ || args[i] == "--config"@) && i + 1 < args.len() {
        Some(args[i + 1])
    } else if text::starts(args[i], "--config="@) {
        Some(args[i].skip("--config="@.len() as int))
    } else {
        path_in_args(args, i + 1)
    }
}

/// The configuration file: the one that the environment names, or the one that
/// the arguments name, or the usual one. The first argument is the program.
pub open spec fn chosen_path(env: Option<Seq<char>>, args: Seq<Seq<char>>) -> Seq<char> {
    if env is Some && env->0.len() > 0 {
        env->0
    } else {
        match path_in_args(args, 1) {
            Some(p) => p,
            None => "migux.conf"@,
        }
    }
}

/// Chooses the configuration file, given the value of the environment variable
/// for it and the arguments of the program.
pub fn config_path(env: Option<&str>, args: &Vec<String>) -> (r: String)
    ensures
        r@ == chosen_path(env.deep_view(), args.deep_view()),
{
    match env {
        Some(path) => {
            if !is_empty(path) {
                return copy_str(path);
            }
        },
        None => {},
    }
    let ghost all = args.deep_view();
    let prefix = chars_of("--config=");
    let mut i: usize = 1;
    while i < args.len()
        invariant
            1 <= i,
            env.deep_view() matches Some(e) ==> e.len() == 0,
            all == args.deep_view(),
            prefix@ == "--config="@,
            path_in_args(all, 1) == path_in_args(all, i as int),
        decreases args@.len() - i,
    {
        assert(all[i as int] == args@[i as int]@);
        let arg = args[i].as_str();
        if (same_str(arg, "-c") || same_str(arg, "--config")) && i + 1 < args.len() {
            assert(all[i + 1] == args@[i + 1]@);
            return args[i + 1].clone();
        }
        let ac = chars_of(arg);
        if starts_with(ac.as_slice(), prefix.as_slice()) {
            return string_of(tail_from(ac.as_slice(), prefix.len()));
        }
        i += 1;
    }
    copy_str("migux.conf")
}

/// Lines with a text before each.
pub open spec fn each_behind(before: Seq<char>, ls: Seq<Seq<char>>) -> Seq<Seq<char>> {
    ls.map_values(|l: Seq<char>| before + l)
}

/// What the operator is told of a configuration, line by line.
pub open spec fn told(report: ReportView) -> Seq<Seq<char>> {
    each_behind("WARNING: "@, report.warnings) + (if report.errors.len() > 0 {
        seq!["Invalid configuration:"@] + each_behind("  - "@, report.errors)
    } else {
        seq![]
    })
}

/// Adds lines with a text before each.
fn push_each(out: &mut Vec<String>, before: &str, ls: &[String])
    ensures
        final(out).deep_view() == old(out).deep_view() + each_behind(before@, ls.deep_view()),
{
    let ghost start = out.deep_view();
    let ghost all = each_behind(before@, ls.deep_view());
    assert(start + all.take(0) =~= start);
    for i in 0..ls.len()
        invariant
            all == each_behind(before@, ls.deep_view()),
            out.deep_view() == start + all.take(i as int),
    {
        push_line(out, before, ls[i].as_str());
        assert(all[i as int] == before@ + ls@[i as int]@);
        assert(out.deep_view() =~= start + all.take(i + 1));
    }
    assert(all.take(ls@.len() as int) =~= all);
}

/// What the operator is told of a configuration, and whether the program goes
/// on with it: not with errors.
pub fn judge_config(report: &ConfigReport) -> (r: (Vec<String>, bool))
    ensures
        r.0.deep_view() == told(report@),
        r.1 == (report@.errors.len() == 0),
{
    let mut out: Vec<String> = Vec::new();
    assert(out.deep_view() =~= seq![]);
    push_each(&mut out, "WARNING: ", report.warnings());
    if report.has_errors() {
        push_heading(&mut out, "Invalid configuration:");
        push_each(&mut out, "  - ", report.errors());
        assert(out.deep_view() =~= told(report@));
        (out, false)
    } else {
        assert(out.deep_view() =~= told(report@));
        (out, true)
    }
}

/// What is told when the configuration cannot be read and the default one is
/// used.
pub fn unreadable_config(path: &str, error: &str) -> (r: Vec<String>)
    ensures
        r.deep_view() == seq![
            "Error reading migux config from '"@ + path@ + "': "@ + error@,
            "Using default config..."@,
        ],
{
    let mut out: Vec<String> = Vec::new();
    assert(out.deep_view() =~= seq![]);
    let head = concat3("Error reading migux config from '", path, "': ");
    push_line(&mut out, head.as_str(), error);
    push_heading(&mut out, "Using default config...");
    out
}

// ---------------------------------------------------------------------------
// Which file is read
// ---------------------------------------------------------------------------

/// Whether an argument has to do with the configuration file.
pub open spec fn names_the_file(arg: Seq<char>) -> bool {
    arg == "-c"@ || arg == "--config"@ || exists|p: Seq<char>| arg == #[trigger] ("--config="@ + p)
}

proof fn lemma_skipped(args: Seq<Seq<char>>, from: int, to: int)
    requires
        0 <= from <= to <= args.len(),
        forall|i: int| from <= i < to ==> !names_the_file(#[trigger] args[i]),
    ensures
        path_in_args(args, from) == path_in_args(args, to),
    decreases to - from,
{
    if from < to {
        assert(!names_the_file(args[from]));
        if text::starts(args[from], "--config="@) {
            assert(args[from] =~= "--config="@ + args[from].skip("--config="@.len() as int));
        }
        lemma_skipped(args, from + 1, to);
    }
}

/// The file is the one that the environment names, if it names any; else the one
/// behind the first argument for it, `-c`, `--config` or `--config=`; else
/// `migux.conf`. The name of the program is no argument. `i` is the place of that
/// argument.
pub proof fn file_is_chosen(
    env: Seq<char>,
    args: Seq<Seq<char>>,
    i: int,
    path: Seq<char>,
)
    requires
        1 <= i,
        forall|j: int| 1 <= j < i && j < args.len() ==> !names_the_file(#[trigger] args[j]),
    ensures
        env.len() > 0 ==> chosen_path(Some(env), args) == env,
        chosen_path(Some(seq![]), args) == chosen_path(None, args),
        i >= args.len() ==> chosen_path(None, args) == "migux.conf"@,
        i + 1 < args.len() && (args[i] == "-c"@ || args[i] == "--config"@) ==> chosen_path(None, args)
            == args[i + 1],
        i < args.len() && args[i] == "--config="@ + path ==> chosen_path(None, args) == path,
{
    if i >= args.len() {
        if args.len() >= 1 {
            lemma_skipped(args, 1, args.len() as int);
        }
    } else {
        lemma_skipped(args, 1, i);
        if args[i] == "--config="@ + path {
            reveal_strlit("--config=");
            reveal_strlit("--config");
            reveal_strlit("-c");
            assert(args[i].take("--config="@.len() as int) =~= "--config="@);
            assert(args[i].skip("--config="@.len() as int) =~= path);
            assert(args[i].len() >= 9);
        }
    }
}

/// Every warning is told, and every error behind one heading, in order.
pub proof fn findings_are_told(report: ReportView, i: int)
    ensures
        0 <= i < report.warnings.len() ==> told(report)[i] == "WARNING: "@ + report.warnings[i],
        report.errors.len() > 0 ==> told(report)[report.warnings.len() as int]
            == "Invalid configuration:"@,
        0 <= i < report.errors.len() ==> told(report)[report.warnings.len() + 1 + i] == "  - "@
            + report.errors[i],
        told(report).len() == report.warnings.len() + (if report.errors.len() > 0 {
            1 + report.errors.len()
        } else {
            0
        }),
{
}

} // verus!
