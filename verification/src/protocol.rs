//! The two-pass rename protocol, and a model of what it does to files.
//!
//! A batch is renamed in two passes. The first moves every file to its
//! staging name; only when all of these moves are done does the second move
//! every file from its staging name to its final name. Within a pass the
//! moves may be carried out in any order.

use crate::names::Plan;
use vstd::prelude::*;

verus! {

/// One move of a file.
pub struct Rename {
    /// The path the file is taken from.
    pub from: Seq<char>,
    /// The path it is put at.
    pub to: Seq<char>,
}

/// The moves of the first pass: each file to its staging name.
pub open spec fn stage_moves(plans: Seq<Plan>) -> Seq<Rename> {
    Seq::new(plans.len(), |i: int| Rename { from: plans[i].source, to: plans[i].staging })
}

/// The moves of the second pass: each file from its staging name to its
/// final name.
pub open spec fn finalize_moves(plans: Seq<Plan>) -> Seq<Rename> {
    Seq::new(plans.len(), |i: int| Rename { from: plans[i].staging, to: plans[i].destination })
}

/// The moves of one pass.
pub open spec fn pass_moves(plans: Seq<Plan>, to_tmp: bool) -> Seq<Rename> {
    if to_tmp {
        stage_moves(plans)
    } else {
        finalize_moves(plans)
    }
}

/// What one move does to the files: the file at `from` is afterwards at
/// `to`, in place of whatever was there. Where there is no file at `from`
/// the move fails and nothing changes.
pub open spec fn rename<C>(files: Map<Seq<char>, C>, step: Rename) -> Map<Seq<char>, C> {
    if files.dom().contains(step.from) {
        files.remove(step.from).insert(step.to, files[step.from])
    } else {
        files
    }
}

/// What a series of moves does to the files, one move after the other.
pub open spec fn carry_out<C>(files: Map<Seq<char>, C>, moves: Seq<Rename>) -> Map<Seq<char>, C>
    decreases moves.len(),
{
    if moves.len() == 0 {
        files
    } else {
        rename(carry_out(files, moves.drop_last()), moves.last())
    }
}

/// What a pass does to the files: its moves where it is performed, nothing
/// in a practice run.
pub open spec fn outcome<C>(files: Map<Seq<char>, C>, moves: Seq<Rename>, perform: bool) -> Map<
    Seq<char>,
    C,
> {
    if perform {
        carry_out(files, moves)
    } else {
        files
    }
}

/// Whether `order` lists the positions below `n`, each of them once.
pub open spec fn is_order(order: Seq<int>, n: nat) -> bool {
    &&& order.len() == n
    &&& forall|k: int| 0 <= k < n ==> 0 <= #[trigger] order[k] < n
    &&& forall|k: int, l: int| 0 <= k < l < n ==> order[k] != order[l]
    &&& forall|t: int| 0 <= t < n ==> #[trigger] order.contains(t)
}

/// The moves in the order in which they happen to be carried out.
pub open spec fn in_order(moves: Seq<Rename>, order: Seq<int>) -> Seq<Rename> {
    Seq::new(order.len(), |k: int| moves[order[k]])
}

/// Whether the moves can be carried out on `files` in any order without
/// getting in each other's way: every file to be moved is there, no two
/// moves take the same file or put a file at the same place, and nothing is
/// at any place that a file is put at.
pub open spec fn clear<C>(files: Map<Seq<char>, C>, moves: Seq<Rename>) -> bool {
    &&& forall|t: int|
        0 <= t < moves.len() ==> files.dom().contains(#[trigger] moves[t].from)
            && !files.dom().contains(moves[t].to)
    &&& forall|s: int, t: int|
        0 <= s < t < moves.len() ==> #[trigger] moves[s].from != #[trigger] moves[t].from
            && moves[s].to != moves[t].to
}

/// Whether no move takes a file from `path` or puts one there.
pub open spec fn untouched(moves: Seq<Rename>, path: Seq<char>) -> bool {
    forall|t: int| 0 <= t < moves.len() ==> #[trigger] moves[t].from != path && moves[t].to != path
}

/// Whether `after` is `before` with every move done: each file that was
/// moved is at its new place and no longer at its old one, and everything
/// else is as it was.
pub open spec fn moved<C>(
    before: Map<Seq<char>, C>,
    moves: Seq<Rename>,
    after: Map<Seq<char>, C>,
) -> bool {
    &&& forall|t: int|
        0 <= t < moves.len() ==> after.dom().contains(#[trigger] moves[t].to) && after[moves[t].to]
            == before[moves[t].from] && !after.dom().contains(moves[t].from)
    &&& forall|path: Seq<char>| #[trigger]
        untouched(moves, path) ==> (after.dom().contains(path) <==> before.dom().contains(path))
            && (before.dom().contains(path) ==> after[path] == before[path])
}

/// Moves that are clear of each other do what they say, carried out one
/// after the other.
pub proof fn lemma_clear_moves_succeed<C>(files: Map<Seq<char>, C>, moves: Seq<Rename>)
    requires
        clear(files, moves),
    ensures
        moved(files, moves, carry_out(files, moves)),
    decreases moves.len(),
{
    let after = carry_out(files, moves);
    if moves.len() == 0 {
    } else {
        let n = moves.len() - 1;
        let early = moves.drop_last();
        let mid = carry_out(files, early);
        let step = moves.last();
        assert(clear(files, early)) by {
            assert forall|t: int| 0 <= t < early.len() implies files.dom().contains(
                #[trigger] early[t].from,
            ) && !files.dom().contains(early[t].to) by {
                assert(early[t] == moves[t]);
            }
            assert forall|s: int, t: int| 0 <= s < t < early.len() implies #[trigger] early[s].from
                != #[trigger] early[t].from && early[s].to != early[t].to by {
                assert(early[s] == moves[s]);
                assert(early[t] == moves[t]);
            }
        }
        lemma_clear_moves_succeed(files, early);
        assert(step == moves[n]);
        assert(untouched(early, step.from)) by {
            assert forall|t: int| 0 <= t < early.len() implies #[trigger] early[t].from != step.from
                && early[t].to != step.from by {
                assert(early[t] == moves[t]);
            }
        }
        assert(mid.dom().contains(step.from));
        assert(after == mid.remove(step.from).insert(step.to, files[step.from]));
        assert forall|t: int| 0 <= t < moves.len() implies after.dom().contains(
            #[trigger] moves[t].to,
        ) && after[moves[t].to] == files[moves[t].from] && !after.dom().contains(
            moves[t].from,
        ) by {
            if t < n {
                assert(early[t] == moves[t]);
            }
        }
        assert forall|path: Seq<char>| #[trigger] untouched(moves, path) implies (
        after.dom().contains(path) <==> files.dom().contains(path)) && (files.dom().contains(path)
            ==> after[path] == files[path]) by {
            assert(untouched(early, path)) by {
                assert forall|t: int| 0 <= t < early.len() implies #[trigger] early[t].from != path
                    && early[t].to != path by {
                    assert(early[t] == moves[t]);
                }
            }
            assert(moves[n].from != path && moves[n].to != path);
        }
    }
}

/// Moves that are clear of each other stay so in any order, and do the same
/// in any order.
pub proof fn lemma_any_order_succeeds<C>(
    files: Map<Seq<char>, C>,
    moves: Seq<Rename>,
    order: Seq<int>,
)
    requires
        clear(files, moves),
        is_order(order, moves.len()),
    ensures
        moved(files, moves, carry_out(files, in_order(moves, order))),
{
    let mixed = in_order(moves, order);
    let after = carry_out(files, mixed);
    assert(clear(files, mixed)) by {
        assert forall|s: int, t: int| 0 <= s < t < mixed.len() implies #[trigger] mixed[s].from
            != #[trigger] mixed[t].from && mixed[s].to != mixed[t].to by {
            let a = order[s];
            let b = order[t];
            if a < b {
                assert(moves[a].from != moves[b].from && moves[a].to != moves[b].to);
            } else {
                assert(moves[b].from != moves[a].from && moves[b].to != moves[a].to);
            }
        }
    }
    lemma_clear_moves_succeed(files, mixed);
    assert forall|t: int| 0 <= t < moves.len() implies after.dom().contains(
        #[trigger] moves[t].to,
    ) && after[moves[t].to] == files[moves[t].from] && !after.dom().contains(moves[t].from) by {
        assert(order.contains(t));
        let k = choose|k: int| 0 <= k < order.len() && order[k] == t;
        assert(mixed[k] == moves[t]);
    }
    assert forall|path: Seq<char>| #[trigger] untouched(moves, path) implies (
    after.dom().contains(path) <==> files.dom().contains(path)) && (files.dom().contains(path)
        ==> after[path] == files[path]) by {
        assert(untouched(mixed, path)) by {
            assert forall|k: int| 0 <= k < mixed.len() implies #[trigger] mixed[k].from != path
                && mixed[k].to != path by {
                assert(mixed[k] == moves[order[k]]);
            }
        }
    }
}

/// Whether the names of a batch keep out of each other's way: no two plans
/// share a source, a staging name or a final name, and no staging name is
/// a source or a final name of the batch.
pub open spec fn names_apart(plans: Seq<Plan>) -> bool {
    forall|i: int, j: int|
        0 <= i < plans.len() && 0 <= j < plans.len() ==> {
            &&& (#[trigger] plans[i]).staging != (#[trigger] plans[j]).source
            &&& plans[i].staging != plans[j].destination
            &&& i != j ==> plans[i].source != plans[j].source && plans[i].staging
                != plans[j].staging && plans[i].destination != plans[j].destination
        }
}

/// Whether `path` is the source of a plan of the batch.
pub open spec fn is_source(plans: Seq<Plan>, path: Seq<char>) -> bool {
    exists|i: int| 0 <= i < plans.len() && (#[trigger] plans[i]).source == path
}

/// Whether `path` is the final name of a plan of the batch.
pub open spec fn is_destination(plans: Seq<Plan>, path: Seq<char>) -> bool {
    exists|i: int| 0 <= i < plans.len() && (#[trigger] plans[i]).destination == path
}

/// Whether the batch fits the files: every source is there, no staging name
/// is taken, and a final name is taken by a file of the batch, if at all.
pub open spec fn fits<C>(files: Map<Seq<char>, C>, plans: Seq<Plan>) -> bool {
    forall|i: int|
        0 <= i < plans.len() ==> {
            &&& files.dom().contains((#[trigger] plans[i]).source)
            &&& !files.dom().contains(plans[i].staging)
            &&& files.dom().contains(plans[i].destination) ==> is_source(
                plans,
                plans[i].destination,
            )
        }
}

/// Whether `after` is `before` with the whole batch renamed: every file of
/// the batch is at its final name, and a path that is no final name holds
/// what it held before, unless a file of the batch was there, which has
/// left.
pub open spec fn renamed<C>(
    before: Map<Seq<char>, C>,
    plans: Seq<Plan>,
    after: Map<Seq<char>, C>,
) -> bool {
    &&& forall|i: int|
        0 <= i < plans.len() ==> after.dom().contains((#[trigger] plans[i]).destination)
            && after[plans[i].destination] == before[plans[i].source]
    &&& forall|path: Seq<char>|
        !(#[trigger] is_destination(plans, path)) ==> (after.dom().contains(path)
            <==> before.dom().contains(path) && !is_source(plans, path)) && (after.dom().contains(
            path,
        ) ==> after[path] == before[path])
}

/// The two passes rename the batch and lose nothing, in whatever order the
/// moves of the first pass are carried out, and in whatever order those of
/// the second, as long as the first pass is over before the second begins:
/// every file ends at its final name, also where that name was taken by
/// another file of the batch, and no other file is touched.
pub proof fn lemma_two_passes_rename<C>(
    files: Map<Seq<char>, C>,
    plans: Seq<Plan>,
    first: Seq<int>,
    second: Seq<int>,
)
    requires
        names_apart(plans),
        fits(files, plans),
        is_order(first, plans.len()),
        is_order(second, plans.len()),
    ensures
        renamed(
            files,
            plans,
            carry_out(
                carry_out(files, in_order(stage_moves(plans), first)),
                in_order(finalize_moves(plans), second),
            ),
        ),
{
    let stage = stage_moves(plans);
    let finalize = finalize_moves(plans);
    let mid = carry_out(files, in_order(stage, first));
    let after = carry_out(mid, in_order(finalize, second));
    assert(clear(files, stage));
    lemma_any_order_succeeds(files, stage, first);
    assert(clear(mid, finalize)) by {
        assert forall|t: int| 0 <= t < finalize.len() implies mid.dom().contains(
            #[trigger] finalize[t].from,
        ) && !mid.dom().contains(finalize[t].to) by {
            let to = plans[t].destination;
            assert(stage[t].to == finalize[t].from);
            if is_source(plans, to) {
                let i = choose|i: int| 0 <= i < plans.len() && (#[trigger] plans[i]).source == to;
                assert(stage[i].from == to);
            } else {
                assert(untouched(stage, to)) by {
                    assert forall|k: int| 0 <= k < stage.len() implies #[trigger] stage[k].from
                        != to && stage[k].to != to by {
                        assert(plans[k].staging != plans[t].destination);
                    }
                }
            }
        }
    }
    lemma_any_order_succeeds(mid, finalize, second);
    assert forall|i: int| 0 <= i < plans.len() implies after.dom().contains(
        (#[trigger] plans[i]).destination,
    ) && after[plans[i].destination] == files[plans[i].source] by {
        assert(finalize[i].to == plans[i].destination);
        assert(stage[i].to == finalize[i].from);
        assert(stage[i].from == plans[i].source);
    }
    assert forall|path: Seq<char>| !(#[trigger] is_destination(plans, path)) implies (
    after.dom().contains(path) <==> files.dom().contains(path) && !is_source(plans, path)) && (
    after.dom().contains(path) ==> after[path] == files[path]) by {
        if exists|i: int| 0 <= i < plans.len() && (#[trigger] plans[i]).staging == path {
            let i = choose|i: int| 0 <= i < plans.len() && (#[trigger] plans[i]).staging == path;
            assert(finalize[i].from == path);
        } else {
            assert(untouched(finalize, path)) by {
                assert forall|k: int| 0 <= k < finalize.len() implies #[trigger] finalize[k].from
                    != path && finalize[k].to != path by {
                    assert(plans[k].staging != path);
                    assert(!is_destination(plans, path));
                    assert(plans[k].destination != path);
                }
            }
            if is_source(plans, path) {
                let i = choose|i: int| 0 <= i < plans.len() && (#[trigger] plans[i]).source == path;
                assert(stage[i].from == path);
            } else {
                assert(untouched(stage, path)) by {
                    assert forall|k: int| 0 <= k < stage.len() implies #[trigger] stage[k].from
                        != path && stage[k].to != path by {
                        assert(plans[k].source != path);
                        assert(plans[k].staging != path);
                    }
                }
            }
        }
    }
}

} // verus!
