//! The switches of a run and the schedule of its renames.

use crate::args::{args_contain, check_args, complaint, has_option, texts_of};
use crate::guarantees::{lemma_tree_names_apart, well_listed};
use crate::listing::{get_names, listings_of, planned_tree, Matched};
use crate::names::{plans_of, Names, Plan};
use crate::order::Entry;
use crate::print::ArgError;
use crate::protocol::{
    fits, in_order, is_order, lemma_two_passes_rename, outcome, pass_moves, renamed, Rename,
};
use vstd::prelude::*;

verus! {

/// The switches of a run.
#[derive(Debug, Clone, Copy, PartialEq, Eq)]
pub struct State {
    /// Each rename is narrated.
    pub is_verb: bool,
    /// Nothing is printed; overrides `is_verb`.
    pub is_quiet: bool,
    /// The renames are carried out.
    pub is_exec: bool,
    /// Files are numbered in the order of their capture time.
    pub is_sort: bool,
}

impl State {
    /// Reads the switches off the arguments.
    pub fn get(args: &Vec<String>) -> (state: State)
        ensures
            state.is_verb == has_option(texts_of(args@), seq!['v']),
            state.is_quiet == has_option(texts_of(args@), seq!['q']),
            state.is_exec == has_option(texts_of(args@), seq!['x']),
            state.is_sort == has_option(texts_of(args@), seq!['s']),
    {
        proof {
            reveal_strlit("v");
            reveal_strlit("q");
            reveal_strlit("x");
            reveal_strlit("s");
            assert("v"@ =~= seq!['v']);
            assert("q"@ =~= seq!['q']);
            assert("x"@ =~= seq!['x']);
            assert("s"@ =~= seq!['s']);
        }
        State {
            is_verb: args_contain(args, "v"),
            is_quiet: args_contain(args, "q"),
            is_exec: args_contain(args, "x"),
            is_sort: args_contain(args, "s"),
        }
    }
}

/// One move of a file, from one path to another.
#[derive(Debug, Clone, PartialEq, Eq)]
pub struct Move {
    /// The path the file is taken from.
    pub from: String,
    /// The path it is put at.
    pub to: String,
}

impl View for Move {
    type V = Rename;

    open spec fn view(&self) -> Rename {
        Rename { from: self.from@, to: self.to@ }
    }
}

/// The moves as the model sees them.
pub open spec fn moves_of(moves: Seq<Move>) -> Seq<Rename> {
    moves.map_values(|m: Move| m@)
}

/// One pass over the batch. Its moves may be carried out in any order, but
/// all of them before any move of a later pass.
#[derive(Debug, Clone, PartialEq, Eq)]
pub struct Pass {
    /// The moves of the pass.
    pub moves: Vec<Move>,
    /// Each move is announced.
    pub narrate: bool,
    /// The moves are carried out; otherwise this is a practice run.
    pub perform: bool,
}

/// The pass that `run_loop` owes for these switches, plans and direction.
pub open spec fn is_pass(pass: Pass, state: State, plans: Seq<Plan>, to_tmp: bool) -> bool {
    &&& pass.moves.len() == plans.len()
    &&& moves_of(pass.moves@) == pass_moves(plans, to_tmp)
    &&& pass.narrate == (state.is_verb && !state.is_quiet)
    &&& pass.perform == state.is_exec
}

/// Lays out one pass over the batch: the first, to the staging names, where
/// `to_tmp` holds, and the second, to the final names, otherwise.
pub fn run_loop(state: &State, file_list: &Vec<Names>, to_tmp: bool) -> (pass: Pass)
    ensures
        is_pass(pass, *state, plans_of(file_list@), to_tmp),
{
    let mut moves: Vec<Move> = Vec::new();
    let mut i: usize = 0;
    while i < file_list.len()
        invariant
            i <= file_list.len(),
            moves.len() == i,
            forall|j: int| 0 <= j < i ==> moves[j]@ == pass_moves(plans_of(file_list@), to_tmp)[j],
        decreases file_list.len() - i,
    {
        let n = &file_list[i];
        assert(plans_of(file_list@)[i as int] == n@);
        let step = if to_tmp {
            Move { from: n.old.clone(), to: n.tmp.clone() }
        } else {
            Move { from: n.tmp.clone(), to: n.new.clone() }
        };
        moves.push(step);
        i = i + 1;
    }
    assert(moves_of(moves@) =~= pass_moves(plans_of(file_list@), to_tmp));
    Pass { moves, narrate: state.is_verb && !state.is_quiet, perform: state.is_exec }
}

/// Everything a run does, in order: the first pass, then, once all of its
/// moves are done, the second, then the report.
#[derive(Debug, Clone, PartialEq, Eq)]
pub struct Schedule {
    /// The pass to the staging names.
    pub stage: Pass,
    /// The pass to the final names.
    pub finalize: Pass,
    /// A summary is printed at the end.
    pub report: bool,
    /// The number of files that were planned for.
    pub count: usize,
}

/// The schedule that `run` owes for these arguments and files.
pub open spec fn is_schedule(
    schedule: Schedule,
    args: Seq<Seq<char>>,
    dirs: Seq<Seq<Entry>>,
) -> bool {
    let state = State {
        is_verb: has_option(args, seq!['v']),
        is_quiet: has_option(args, seq!['q']),
        is_exec: has_option(args, seq!['x']),
        is_sort: has_option(args, seq!['s']),
    };
    let plans = planned_tree(state.is_sort, dirs);
    &&& is_pass(schedule.stage, state, plans, true)
    &&& is_pass(schedule.finalize, state, plans, false)
    &&& schedule.report == !state.is_quiet
    &&& schedule.count == plans.len()
}

/// Plans a whole run: checks the mode options, numbers the matched files of
/// each directory and lays out the two passes.
pub fn run(args: &Vec<String>, dirs: &Vec<Vec<Matched>>) -> (planned: Result<Schedule, ArgError>)
    ensures
        match complaint(texts_of(args@)) {
            Some(heading) => planned is Err && planned->Err_0@ == heading,
            None => planned is Ok && is_schedule(
                planned->Ok_0,
                texts_of(args@),
                listings_of(dirs@),
            ),
        },
{
    match check_args(args) {
        Err(e) => Err(e),
        Ok(()) => {
            let state = State::get(args);
            let names = get_names(state.is_sort, dirs);
            let stage = run_loop(&state, &names, true);
            let finalize = run_loop(&state, &names, false);
            Ok(Schedule { stage, finalize, report: !state.is_quiet, count: names.len() })
        },
    }
}

/// What carrying out the schedule does to the files: the moves of the
/// first pass in the order `first`, then those of the second in the order
/// `second`.
pub open spec fn effect<C>(
    files: Map<Seq<char>, C>,
    schedule: Schedule,
    first: Seq<int>,
    second: Seq<int>,
) -> Map<Seq<char>, C> {
    outcome(
        outcome(files, in_order(moves_of(schedule.stage.moves@), first), schedule.stage.perform),
        in_order(moves_of(schedule.finalize.moves@), second),
        schedule.finalize.perform,
    )
}

/// A practice run changes no file.
pub proof fn lemma_practice_run<C>(
    files: Map<Seq<char>, C>,
    schedule: Schedule,
    args: Seq<Seq<char>>,
    dirs: Seq<Seq<Entry>>,
    first: Seq<int>,
    second: Seq<int>,
)
    requires
        is_schedule(schedule, args, dirs),
        !has_option(args, seq!['x']),
    ensures
        effect(files, schedule, first, second) == files,
{
}

/// A real run renames every matched file to its final name and loses
/// nothing, whatever the order of the moves within each pass: provided
/// that the listings are those of the directories of a tree, that the
/// matched files are there, that no staging name is taken, and that a final
/// name is taken by a matched file, if at all.
pub proof fn lemma_real_run<C>(
    files: Map<Seq<char>, C>,
    schedule: Schedule,
    args: Seq<Seq<char>>,
    dirs: Seq<Seq<Entry>>,
    first: Seq<int>,
    second: Seq<int>,
)
    requires
        is_schedule(schedule, args, dirs),
        has_option(args, seq!['x']),
        well_listed(dirs),
        fits(files, planned_tree(has_option(args, seq!['s']), dirs)),
        is_order(first, planned_tree(has_option(args, seq!['s']), dirs).len()),
        is_order(second, planned_tree(has_option(args, seq!['s']), dirs).len()),
    ensures
        renamed(
            files,
            planned_tree(has_option(args, seq!['s']), dirs),
            effect(files, schedule, first, second),
        ),
{
    let plans = planned_tree(has_option(args, seq!['s']), dirs);
    lemma_tree_names_apart(has_option(args, seq!['s']), dirs);
    lemma_two_passes_rename(files, plans, first, second);
}

} // verus!
