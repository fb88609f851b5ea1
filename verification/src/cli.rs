//! The command line: `tailnat [--config PATH] [--web-dir PATH]`.
use vstd::prelude::*;

use crate::text::owned;

verus! {

/// What the command line asks for.
#[derive(Clone, Debug)]
pub enum ArgOutcome {
    /// `--help` or `-h` was given: print the usage and stop.
    Help,
    /// The arguments are not flag/value pairs of known flags.
    Usage,
    /// The value of the flag asked about (or its default).
    Value(String),
}

/// Some argument asks for help.
pub open spec fn asks_help(args: Seq<String>) -> bool {
    exists|i: int| 0 <= i < args.len() && ((#[trigger] args[i])@ == "--help"@ || args[i]@ == "-h"@)
}

/// The arguments are not `program (flag value)*` with known flags.
pub open spec fn misused(args: Seq<String>) -> bool {
    ||| args.len() % 2 == 0
    ||| exists|i: int|
        1 <= i < args.len() && i % 2 == 1 && (#[trigger] args[i])@ != "--config"@ && args[i]@
            != "--web-dir"@
}

/// The first position `i` where `args[i]` is `flag` and a value follows.
pub open spec fn flag_position(args: Seq<String>, flag: Seq<char>, i: int) -> Option<int>
    decreases args.len() - i,
{
    if i < 0 || i + 1 >= args.len() {
        None
    } else if args[i]@ == flag {
        Some(i)
    } else {
        flag_position(args, flag, i + 1)
    }
}

/// The value given for `flag`: the argument after its first occurrence, or
/// `default`.
pub open spec fn flag_value(args: Seq<String>, flag: Seq<char>, default: Seq<char>) -> Seq<char> {
    match flag_position(args, flag, 0) {
        Some(i) => args[i + 1]@,
        None => default,
    }
}

/// Reads the value of `flag` from the command line `args` (the program name
/// first).
#[verifier::loop_isolation(false)]
pub fn argument(args: &Vec<String>, flag: &str, default: &str) -> (r: ArgOutcome)
    ensures
        asks_help(args@) ==> r is Help,
        !asks_help(args@) && misused(args@) ==> r is Usage,
        !asks_help(args@) && !misused(args@) ==> (r matches ArgOutcome::Value(v) && v@
            == flag_value(args@, flag@, default@)),
{
    let help = owned("--help");
    let short = owned("-h");
    let mut i: usize = 0;
    while i < args.len()
        invariant
            0 <= i <= args@.len(),
            help@ == "--help"@,
            short@ == "-h"@,
            forall|k: int| 0 <= k < i ==> !((#[trigger] args@[k])@ == "--help"@ || args@[k]@ == "-h"@),
        decreases args.len() - i,
    {
        if args[i] == help || args[i] == short {
            assert(asks_help(args@));
            return ArgOutcome::Help;
        }
        i = i + 1;
    }
    if args.len() % 2 == 0 {
        return ArgOutcome::Usage;
    }
    let config = owned("--config");
    let web_dir = owned("--web-dir");
    let mut i: usize = 1;
    while i < args.len()
        invariant
            1 <= i <= args@.len(),
            i % 2 == 1 || i == args@.len(),
            args@.len() % 2 == 1,
            config@ == "--config"@,
            web_dir@ == "--web-dir"@,
            !asks_help(args@),
            forall|k: int|
                1 <= k < i && k < args@.len() && k % 2 == 1 ==> ((#[trigger] args@[k])@ == "--config"@
                    || args@[k]@ == "--web-dir"@),
        decreases args.len() - i,
    {
        if args[i] != config && args[i] != web_dir {
            return ArgOutcome::Usage;
        }
        if args.len() - i > 2 {
            i = i + 2;
        } else {
            i = args.len();
        }
    }
    let wanted = owned(flag);
    let mut i: usize = 0;
    while i < args.len() && i + 1 < args.len()
        invariant
            0 <= i <= args@.len(),
            wanted@ == flag@,
            flag_position(args@, flag@, 0) == flag_position(args@, flag@, i as int),
        decreases args.len() - i,
    {
        if args[i] == wanted {
            return ArgOutcome::Value(args[i + 1].clone());
        }
        i = i + 1;
    }
    ArgOutcome::Value(owned(default))
}

proof fn lemma_flag_position_first(args: Seq<String>, flag: Seq<char>, k: int, i: int)
    requires
        0 <= k <= i,
        i + 1 < args.len(),
        args[i]@ == flag,
        forall|j: int| k <= j < i ==> (#[trigger] args[j])@ != flag,
    ensures
        flag_position(args, flag, k) == Some(i),
    decreases i - k,
{
    if k < i {
        lemma_flag_position_first(args, flag, k + 1, i);
    }
}

proof fn lemma_flag_position_none(args: Seq<String>, flag: Seq<char>, k: int)
    requires
        0 <= k,
        forall|j: int| k <= j && j + 1 < args.len() ==> (#[trigger] args[j])@ != flag,
    ensures
        flag_position(args, flag, k) is None,
    decreases args.len() - k,
{
    if k + 1 < args.len() {
        lemma_flag_position_none(args, flag, k + 1);
    }
}

/// The value of a flag is the argument right after its first occurrence
/// that has an argument after it, wherever on the command line that is; with
/// no such occurrence it is the default.
pub proof fn law_flag_value_after_first_occurrence(
    args: Seq<String>,
    flag: Seq<char>,
    default: Seq<char>,
)
    ensures
        forall|i: int|
            0 <= i && i + 1 < args.len() && (#[trigger] args[i])@ == flag && (forall|j: int|
                0 <= j < i ==> (#[trigger] args[j])@ != flag) ==> flag_value(args, flag, default)
                == args[i + 1]@,
        (forall|j: int| 0 <= j && j + 1 < args.len() ==> (#[trigger] args[j])@ != flag) ==> flag_value(
            args,
            flag,
            default,
        ) == default,
{
    assert forall|i: int|
        0 <= i && i + 1 < args.len() && (#[trigger] args[i])@ == flag && (forall|j: int|
            0 <= j < i ==> (#[trigger] args[j])@ != flag) implies flag_value(args, flag, default)
        == args[i + 1]@ by {
        lemma_flag_position_first(args, flag, 0, i);
    }
    if forall|j: int| 0 <= j && j + 1 < args.len() ==> (#[trigger] args[j])@ != flag {
        lemma_flag_position_none(args, flag, 0);
    }
}

} // verus!
