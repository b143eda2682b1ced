//! The texts that the program shows.

use crate::state::State;
use vstd::prelude::*;

verus! {

/// A complaint about the arguments: the heading that the usage text is shown
/// under.
#[derive(Debug, Clone, Copy, PartialEq, Eq)]
pub struct ArgError(pub &'static str);

impl View for ArgError {
    type V = Seq<char>;

    open spec fn view(&self) -> Seq<char> {
        self.0@
    }
}

/// The complaints there are.
#[derive(Debug, Clone, Copy, PartialEq, Eq)]
pub struct ArgErrors {
    /// Help was asked for.
    pub help: ArgError,
    /// Both modes were asked for.
    pub arg_clash: ArgError,
    /// No mode was asked for.
    pub no_run: ArgError,
}

/// The heading of the help text.
pub open spec fn help_heading() -> Seq<char> {
    "\nHELP:\n\n"@
}

/// The heading of the complaint about both modes at once.
pub open spec fn clash_heading() -> Seq<char> {
    "\nERROR: Don't mix -x and -p ya dingus!\n\n"@
}

/// The heading of the complaint about no mode at all.
pub open spec fn no_run_heading() -> Seq<char> {
    "\nERROR: Need -x or -p to run\n\n"@
}

/// The complaints, each with its heading.
pub fn arg_errors() -> (errors: ArgErrors)
    ensures
        errors.help@ == help_heading(),
        errors.arg_clash@ == clash_heading(),
        errors.no_run@ == no_run_heading(),
{
    ArgErrors {
        help: ArgError("\nHELP:\n\n"),
        arg_clash: ArgError("\nERROR: Don't mix -x and -p ya dingus!\n\n"),
        no_run: ArgError("\nERROR: Need -x or -p to run\n\n"),
    }
}

/// How the program is called, shown under the heading of a complaint.
pub const USAGE: &'static str = "usage - ./batch_renamer -h -[vq] -[px] -s -g \"glob-string\" -d <path>
 e.g. - ./batch_renamer -xvs -g \"*.png\" -d ./directory
options 
        -v               - Verbose terminal printing.
        -q               - Disable terminal printing entirely. Overrides -v.

        -p               - Practice run. Combine with -v to print what the script will do!
        -x               - Execute renaming. Use with caution.

        -s               - Optional Sort by EXIF timestamp ascending. Defaults to simple alphanumeric filename sort.
        -g \"glob_string\" - Optional string to glob files with.        Defaults to \"*.jpg\".
        -d <path>        - Optional path to run search from.          Defaults to directory the binary is run from.
        ";

impl ArgError {
    /// The text to show for this complaint: its heading, then the usage.
    pub fn message(&self) -> (text: String)
        ensures
            text@ == self@ + USAGE@,
    {
        let mut text = String::from_str(self.0);
        text.append(USAGE);
        text
    }
}

/// The line of the summary that tells the mode of the run.
pub open spec fn mode_line(is_exec: bool) -> Seq<char> {
    if is_exec {
        "Renaming executed."@
    } else {
        "This was a practice run. -x to execute renaming. Be careful."@
    }
}

/// The line of the summary that tells the order of the files.
pub open spec fn sort_line(is_sort: bool) -> Seq<char> {
    if is_sort {
        "Sorted by EXIF date."@
    } else {
        "NOT sorted"@
    }
}

/// The part of the summary that does not depend on the clock: the mode of
/// the run, the order of the files, the pattern and the directory the run
/// started from, one line each.
pub fn info(state: &State, glob: &str, dir: &str) -> (text: String)
    ensures
        text@ == mode_line(state.is_exec) + "\n"@ + sort_line(state.is_sort) + "\nglob = \""@
            + glob@ + "\"\nroot dir = \""@ + dir@ + "\""@,
{
    let mut text = String::from_str(
        if state.is_exec {
            "Renaming executed."
        } else {
            "This was a practice run. -x to execute renaming. Be careful."
        },
    );
    text.append("\n");
    text.append(
        if state.is_sort {
            "Sorted by EXIF date."
        } else {
            "NOT sorted"
        },
    );
    text.append("\nglob = \"");
    text.append(glob);
    text.append("\"\nroot dir = \"");
    text.append(dir);
    text.append("\"");
    text
}

} // verus!
