use batch_renamer::listing::{glob_files, Matched};
use batch_renamer::names::Names;
use batch_renamer::state::{run, run_loop, Pass, Schedule, State};
use std::collections::HashMap;

fn args(list: &[&str]) -> Vec<String> {
    list.iter().map(|a| a.to_string()).collect()
}

fn plain(paths: &[&str]) -> Vec<Matched> {
    paths.iter().map(|p| Matched { path: p.to_string(), key: None }).collect()
}

fn state(is_verb: bool, is_quiet: bool, is_exec: bool) -> State {
    State { is_verb, is_quiet, is_exec, is_sort: false }
}

fn pairs(pass: &Pass) -> Vec<(&str, &str)> {
    pass.moves.iter().map(|m| (m.from.as_str(), m.to.as_str())).collect()
}

fn two_names() -> Vec<Names> {
    vec![
        Names { old: "a".to_string(), tmp: "b".to_string(), new: "c".to_string() },
        Names { old: "d".to_string(), tmp: "e".to_string(), new: "f".to_string() },
    ]
}

#[test]
fn the_first_pass_goes_to_the_staging_names() {
    let pass = run_loop(&state(false, false, true), &two_names(), true);
    assert_eq!(pairs(&pass), vec![("a", "b"), ("d", "e")]);
}

#[test]
fn the_second_pass_goes_to_the_final_names() {
    let pass = run_loop(&state(false, false, true), &two_names(), false);
    assert_eq!(pairs(&pass), vec![("b", "c"), ("e", "f")]);
}

#[test]
fn an_empty_batch_has_empty_passes() {
    let pass = run_loop(&state(true, false, true), &Vec::new(), true);
    assert!(pass.moves.is_empty());
    assert!(pass.narrate && pass.perform);
}

#[test]
fn quiet_overrides_verbose() {
    for exec in [false, true] {
        for to_tmp in [false, true] {
            assert!(run_loop(&state(true, false, exec), &two_names(), to_tmp).narrate);
            assert!(!run_loop(&state(true, true, exec), &two_names(), to_tmp).narrate);
            assert!(!run_loop(&state(false, false, exec), &two_names(), to_tmp).narrate);
            assert!(!run_loop(&state(false, true, exec), &two_names(), to_tmp).narrate);
        }
    }
}

#[test]
fn narration_does_not_change_what_is_done() {
    for verb in [false, true] {
        for quiet in [false, true] {
            let done = run_loop(&state(verb, quiet, true), &two_names(), true);
            assert!(done.perform);
            assert_eq!(pairs(&done), vec![("a", "b"), ("d", "e")]);
            let practice = run_loop(&state(verb, quiet, false), &two_names(), true);
            assert!(!practice.perform);
            assert_eq!(pairs(&practice), vec![("a", "b"), ("d", "e")]);
        }
    }
}

fn schedule(list: &[&str], dirs: &Vec<Vec<Matched>>) -> Schedule {
    match run(&args(list), dirs) {
        Ok(s) => s,
        Err(e) => panic!("refused: {}", e.0),
    }
}

#[test]
fn a_run_is_two_passes_over_all_directories() {
    let dirs = vec![
        plain(&["root/2024/06/trip/b.jpg", "root/2024/06/trip/a.jpg"]),
        plain(&["root/2024/07/x.jpg"]),
    ];
    let s = schedule(&["prog", "-x"], &dirs);
    assert_eq!(s.count, 3);
    assert!(s.report);
    assert!(s.stage.perform && s.finalize.perform);
    assert!(!s.stage.narrate && !s.finalize.narrate);
    assert_eq!(
        pairs(&s.stage),
        vec![
            ("root/2024/06/trip/a.jpg", "root/2024/06/trip/0.brtmp"),
            ("root/2024/06/trip/b.jpg", "root/2024/06/trip/1.brtmp"),
            ("root/2024/07/x.jpg", "root/2024/07/0.brtmp"),
        ]
    );
    assert_eq!(
        pairs(&s.finalize),
        vec![
            ("root/2024/06/trip/0.brtmp", "root/2024/06/trip/06trip0.jpg"),
            ("root/2024/06/trip/1.brtmp", "root/2024/06/trip/06trip1.jpg"),
            ("root/2024/07/0.brtmp", "root/2024/07/2024070.jpg"),
        ]
    );
}

#[test]
fn a_practice_run_performs_nothing() {
    let dirs = vec![plain(&["r/s/t/b.jpg", "r/s/t/a.jpg"])];
    let s = schedule(&["prog", "-pv"], &dirs);
    assert!(!s.stage.perform && !s.finalize.perform);
    assert!(s.stage.narrate && s.finalize.narrate);
    assert_eq!(s.count, 2);
    assert_eq!(s.stage.moves.len(), 2);
    assert_eq!(s.finalize.moves.len(), 2);
}

#[test]
fn a_quiet_run_reports_nothing() {
    let s = schedule(&["prog", "-xvq"], &vec![plain(&["r/s/t/a.jpg"])]);
    assert!(!s.report);
    assert!(!s.stage.narrate && !s.finalize.narrate);
    assert!(s.stage.perform);
}

#[test]
fn a_run_without_files_has_nothing_to_do() {
    let s = schedule(&["prog", "-x"], &vec![Vec::new()]);
    assert_eq!(s.count, 0);
    assert!(s.stage.moves.is_empty() && s.finalize.moves.is_empty());
    let s = schedule(&["prog", "-x"], &Vec::new());
    assert_eq!(s.count, 0);
    assert!(s.report);
}

#[test]
fn a_run_sorts_when_asked_to() {
    let dirs = vec![vec![
        Matched { path: "r/s/t/a.jpg".to_string(), key: Some("2".to_string()) },
        Matched { path: "r/s/t/b.jpg".to_string(), key: Some("1".to_string()) },
    ]];
    let s = schedule(&["prog", "-xs"], &dirs);
    assert_eq!(pairs(&s.stage)[0], ("r/s/t/b.jpg", "r/s/t/0.brtmp"));
    let s = schedule(&["prog", "-x"], &dirs);
    assert_eq!(pairs(&s.stage)[0], ("r/s/t/a.jpg", "r/s/t/0.brtmp"));
}

#[test]
fn a_run_is_refused_for_bad_modes() {
    let dirs = vec![plain(&["r/s/t/a.jpg"])];
    assert_eq!(
        run(&args(&["prog"]), &dirs).err().map(|e| e.0),
        Some("\nERROR: Need -x or -p to run\n\n")
    );
    assert_eq!(
        run(&args(&["prog", "-xp"]), &dirs).err().map(|e| e.0),
        Some("\nERROR: Don't mix -x and -p ya dingus!\n\n")
    );
    assert_eq!(run(&args(&["prog", "-xh"]), &dirs).err().map(|e| e.0), Some("\nHELP:\n\n"));
}

fn carry_out(files: &mut HashMap<String, &'static str>, pass: &Pass) {
    if pass.perform {
        for m in &pass.moves {
            if let Some(content) = files.remove(&m.from) {
                files.insert(m.to.clone(), content);
            }
        }
    }
}

fn carry_out_backwards(files: &mut HashMap<String, &'static str>, pass: &Pass) {
    if pass.perform {
        for m in pass.moves.iter().rev() {
            if let Some(content) = files.remove(&m.from) {
                files.insert(m.to.clone(), content);
            }
        }
    }
}

fn colliding() -> HashMap<String, &'static str> {
    let mut files = HashMap::new();
    files.insert("r/ta/g/x.jpg".to_string(), "content of x");
    files.insert("r/ta/g/tag0.jpg".to_string(), "content of tag0");
    files.insert("r/ta/g/notes.txt".to_string(), "notes");
    files
}

#[test]
fn a_final_name_taken_by_another_file_of_the_batch_loses_nothing() {
    // "tag0.jpg" sorts before "x.jpg"; its final name is its own, and the
    // final name of "x.jpg" is free.
    let dirs = vec![plain(&["r/ta/g/x.jpg", "r/ta/g/tag0.jpg"])];
    let s = schedule(&["prog", "-x"], &dirs);
    let mut files = colliding();
    carry_out(&mut files, &s.stage);
    assert_eq!(files.len(), 3);
    assert_eq!(files["r/ta/g/0.brtmp"], "content of tag0");
    assert_eq!(files["r/ta/g/1.brtmp"], "content of x");
    carry_out(&mut files, &s.finalize);
    assert_eq!(files.len(), 3);
    assert_eq!(files["r/ta/g/tag0.jpg"], "content of tag0");
    assert_eq!(files["r/ta/g/tag1.jpg"], "content of x");
    assert_eq!(files["r/ta/g/notes.txt"], "notes");
}

#[test]
fn a_final_name_that_is_another_source_is_vacated_first() {
    // Sorted by capture time "x.jpg" gets index 0, and its final name is the
    // current name of the file that gets index 1.
    let dirs = vec![vec![
        Matched { path: "r/ta/g/x.jpg".to_string(), key: Some("2001".to_string()) },
        Matched { path: "r/ta/g/tag0.jpg".to_string(), key: Some("2002".to_string()) },
    ]];
    let s = schedule(&["prog", "-xs"], &dirs);
    assert_eq!(pairs(&s.finalize)[0].1, "r/ta/g/tag0.jpg");
    for backwards in [false, true] {
        let mut files = colliding();
        if backwards {
            carry_out_backwards(&mut files, &s.stage);
            carry_out_backwards(&mut files, &s.finalize);
        } else {
            carry_out(&mut files, &s.stage);
            carry_out(&mut files, &s.finalize);
        }
        assert_eq!(files.len(), 3);
        assert_eq!(files["r/ta/g/tag0.jpg"], "content of x");
        assert_eq!(files["r/ta/g/tag1.jpg"], "content of tag0");
        assert_eq!(files["r/ta/g/notes.txt"], "notes");
    }
}

#[test]
fn a_practice_run_leaves_the_files_alone() {
    let dirs = vec![plain(&["r/ta/g/x.jpg", "r/ta/g/tag0.jpg"])];
    let s = schedule(&["prog", "-pv"], &dirs);
    let mut files = colliding();
    carry_out(&mut files, &s.stage);
    carry_out(&mut files, &s.finalize);
    assert_eq!(files, colliding());
}

#[test]
fn a_second_run_keeps_the_names_of_the_first() {
    let first = glob_files(false, &plain(&["r/s/t/b.jpg", "r/s/t/a.jpg", "r/s/t/c.jpg"]));
    let renamed: Vec<Matched> =
        first.iter().rev().map(|n| Matched { path: n.new.clone(), key: None }).collect();
    let second = glob_files(false, &renamed);
    assert_eq!(second.len(), 3);
    for (i, n) in second.iter().enumerate() {
        assert_eq!(n.old, format!("r/s/t/st{}.jpg", i));
        assert_eq!(n.new, n.old);
        assert!(!["r/s/t/a.jpg", "r/s/t/b.jpg", "r/s/t/c.jpg"].contains(&n.new.as_str()));
    }
}

#[test]
fn a_move_whose_file_is_gone_does_not_stop_the_others() {
    let dirs = vec![plain(&["r/s/t/a.jpg", "r/s/t/gone.jpg", "r/s/t/z.jpg"])];
    let s = schedule(&["prog", "-x"], &dirs);
    let mut files: HashMap<String, &'static str> = HashMap::new();
    files.insert("r/s/t/a.jpg".to_string(), "a");
    files.insert("r/s/t/z.jpg".to_string(), "z");
    carry_out(&mut files, &s.stage);
    carry_out(&mut files, &s.finalize);
    assert_eq!(files.len(), 2);
    assert_eq!(files["r/s/t/st0.jpg"], "a");
    assert_eq!(files["r/s/t/st2.jpg"], "z");
    assert_eq!(s.count, 3);
}
