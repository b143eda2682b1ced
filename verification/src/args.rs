//! What the command line asks for.

use crate::print::{arg_errors, clash_heading, help_heading, no_run_heading, ArgError};
use crate::text::{chars_of, contains, contains_text};
use vstd::prelude::*;

verus! {

/// The arguments as texts.
pub open spec fn texts_of(args: Seq<String>) -> Seq<Seq<char>> {
    args.map_values(|a: String| a@)
}

/// Whether `arg` is an option that holds `c`: it starts with `-` and `c`
/// stands somewhere in it.
pub open spec fn is_option_with(arg: Seq<char>, c: Seq<char>) -> bool {
    arg.len() > 0 && arg[0] == '-' && contains_text(arg, c)
}

/// Whether some argument is an option that holds `c`.
pub open spec fn has_option(args: Seq<Seq<char>>, c: Seq<char>) -> bool {
    exists|i: int| 0 <= i < args.len() && is_option_with(#[trigger] args[i], c)
}

/// The argument that follows the last `flag` that has one behind it.
pub open spec fn value_after(args: Seq<Seq<char>>, flag: Seq<char>) -> Option<Seq<char>>
    decreases args.len(),
{
    if args.len() < 2 {
        None
    } else if args[args.len() - 2] == flag {
        Some(args.last())
    } else {
        value_after(args.drop_last(), flag)
    }
}

/// The value of an option that takes one: what follows the flag, or the
/// default where the flag is not given.
pub open spec fn value_or(args: Seq<Seq<char>>, flag: Seq<char>, default: Seq<char>) -> Seq<char> {
    match value_after(args, flag) {
        Some(value) => value,
        None => default,
    }
}

/// The heading of the error that the mode options call for, if any: help
/// where `h` is given, else a clash where both `x` and `p` are given, else a
/// missing mode where neither is.
pub open spec fn complaint(args: Seq<Seq<char>>) -> Option<Seq<char>> {
    let x = has_option(args, seq!['x']);
    let p = has_option(args, seq!['p']);
    let h = has_option(args, seq!['h']);
    if h {
        Some(help_heading())
    } else if x && p {
        Some(clash_heading())
    } else if !x && !p {
        Some(no_run_heading())
    } else {
        None
    }
}

/// Tells whether some argument starts with `-` and holds `c`.
pub fn args_contain(args: &Vec<String>, c: &str) -> (found: bool)
    ensures
        found == has_option(texts_of(args@), c@),
{
    let needle = chars_of(c);
    let mut i: usize = 0;
    while i < args.len()
        invariant
            i <= args.len(),
            needle@ == c@,
            forall|j: int| 0 <= j < i ==> !is_option_with(#[trigger] texts_of(args@)[j], c@),
        decreases args.len() - i,
    {
        let arg = chars_of(args[i].as_str());
        assert(texts_of(args@)[i as int] == arg@);
        if arg.len() > 0 && arg[0] == '-' && contains(&arg, &needle) {
            return true;
        }
        i = i + 1;
    }
    false
}

/// Checks the mode options: exactly one of `-x` and `-p` must be given, and
/// `-h` asks for the help text instead of a run.
pub fn check_args(args: &Vec<String>) -> (checked: Result<(), ArgError>)
    ensures
        match complaint(texts_of(args@)) {
            Some(heading) => checked is Err && checked->Err_0@ == heading,
            None => checked is Ok,
        },
{
    proof {
        reveal_strlit("x");
        reveal_strlit("p");
        reveal_strlit("h");
        assert("x"@ =~= seq!['x']);
        assert("p"@ =~= seq!['p']);
        assert("h"@ =~= seq!['h']);
    }
    let x = args_contain(args, "x");
    let p = args_contain(args, "p");
    let h = args_contain(args, "h");
    if h {
        Err(arg_errors().help)
    } else if x && p {
        Err(arg_errors().arg_clash)
    } else if !x && !p {
        Err(arg_errors().no_run)
    } else {
        Ok(())
    }
}

/// The options that take a value.
enum Arg {
    Glob,
    Dir,
}

impl Arg {
    /// The flag that introduces the value.
    spec fn flag(self) -> Seq<char> {
        match self {
            Arg::Glob => "-g"@,
            Arg::Dir => "-d"@,
        }
    }

    /// The value where the flag is not given.
    spec fn default(self) -> Seq<char> {
        match self {
            Arg::Glob => "*.jpg"@,
            Arg::Dir => "."@,
        }
    }

    /// The value of this option in `args`.
    fn get_arg(self, args: &Vec<String>) -> (value: String)
        ensures
            value@ == value_or(texts_of(args@), self.flag(), self.default()),
    {
        let flag = String::from_str(
            match self {
                Arg::Glob => "-g",
                Arg::Dir => "-d",
            },
        );
        let ghost texts = texts_of(args@);
        let n = args.len();
        let mut at: Option<usize> = None;
        let mut i: usize = if n == 0 {
            0
        } else {
            1
        };
        while i < n
            invariant
                1 <= i <= n || n == 0,
                n == args.len(),
                texts == texts_of(args@),
                flag@ == self.flag(),
                match at {
                    Some(k) => k < n && value_after(texts.take(i as int), flag@) == Some(
                        texts[k as int],
                    ),
                    None => value_after(texts.take(i as int), flag@) is None,
                },
            decreases n - i,
        {
            let ghost seen = texts.take(i + 1);
            assert(seen.drop_last() == texts.take(i as int));
            assert(seen[seen.len() - 2] == args[i - 1]@);
            if args[i - 1] == flag {
                at = Some(i);
            }
            i = i + 1;
        }
        assert(texts.take(n as int) == texts);
        match at {
            Some(k) => args[k].clone(),
            None => String::from_str(
                match self {
                    Arg::Glob => "*.jpg",
                    Arg::Dir => ".",
                },
            ),
        }
    }
}

/// The pattern that files must match: what follows `-g`, by default `*.jpg`.
pub fn get_glob_arg(args: &Vec<String>) -> (pattern: String)
    ensures
        pattern@ == value_or(texts_of(args@), "-g"@, "*.jpg"@),
{
    Arg::Glob.get_arg(args)
}

/// The directory to start from: what follows `-d`, by default `.`.
pub fn get_dir_arg(args: &Vec<String>) -> (dir: String)
    ensures
        dir@ == value_or(texts_of(args@), "-d"@, "."@),
{
    Arg::Dir.get_arg(args)
}

} // verus!
