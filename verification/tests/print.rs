use batch_renamer::print::{arg_errors, info, ArgError, USAGE};
use batch_renamer::state::State;

#[test]
fn complaints_have_their_headings() {
    let e = arg_errors();
    assert_eq!(e.help.0, "\nHELP:\n\n");
    assert_eq!(e.arg_clash.0, "\nERROR: Don't mix -x and -p ya dingus!\n\n");
    assert_eq!(e.no_run.0, "\nERROR: Need -x or -p to run\n\n");
}

#[test]
fn a_message_is_the_heading_and_the_usage() {
    let text = arg_errors().no_run.message();
    assert_eq!(text, format!("\nERROR: Need -x or -p to run\n\n{}", USAGE));
    assert!(text.starts_with(
        "\nERROR: Need -x or -p to run\n\nusage - ./batch_renamer -h -[vq] -[px] -s -g \"glob-string\""
    ));
    assert!(text.contains("\n        -x               - Execute renaming. Use with caution.\n"));
    assert_eq!(ArgError("").message(), USAGE);
    assert_eq!(ArgError("x").message(), format!("x{}", USAGE));
}

#[test]
fn usage_lists_every_option() {
    let lines: Vec<&str> = USAGE.lines().collect();
    assert_eq!(lines.len(), 13);
    assert_eq!(lines[2], "options ");
    for flag in ["-v ", "-q ", "-p ", "-x ", "-s ", "-g ", "-d "] {
        assert_eq!(lines.iter().filter(|l| l.trim_start().starts_with(flag)).count(), 1);
    }
}

fn state(is_exec: bool, is_sort: bool) -> State {
    State { is_verb: false, is_quiet: false, is_exec, is_sort }
}

#[test]
fn summary_of_a_real_sorted_run() {
    assert_eq!(
        info(&state(true, true), "*.png", "./directory"),
        "Renaming executed.\nSorted by EXIF date.\nglob = \"*.png\"\nroot dir = \"./directory\""
    );
}

#[test]
fn summary_of_a_practice_run() {
    assert_eq!(
        info(&state(false, false), "*.jpg", "."),
        "This was a practice run. -x to execute renaming. Be careful.\nNOT sorted\n\
         glob = \"*.jpg\"\nroot dir = \".\""
    );
    assert_eq!(
        info(&state(false, true), "", ""),
        "This was a practice run. -x to execute renaming. Be careful.\nSorted by EXIF date.\n\
         glob = \"\"\nroot dir = \"\""
    );
}
