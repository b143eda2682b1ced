//! What the plans of a directory and of a tree can be relied on for: how
//! the files are numbered, and that the names keep out of each other's way.

use crate::listing::{arranged, keyed, planned, planned_tree};
use crate::names::{
    extension_of, lemma_destinations_distinct, lemma_staging_is_no_destination,
    lemma_staging_is_no_source, lemma_stagings_distinct, names_of, parent_of,
    reserved_extension, Plan,
};
use crate::order::{
    entry_order, lemma_entry_order_total, lemma_missing_key_first, lemma_ties_in_path_order,
    text_leq, Entry,
};
use crate::protocol::names_apart;
use vstd::multiset::group_multiset_axioms;
use vstd::prelude::*;
use vstd::relations::sorted_by;
use vstd::seq_lib::{
    to_multiset_build, to_multiset_contains, to_multiset_insert, to_multiset_len,
    to_multiset_remove,
};

verus! {

/// The paths of the entries.
pub open spec fn paths_of(entries: Seq<Entry>) -> Seq<Seq<char>> {
    entries.map_values(|e: Entry| e.path)
}

/// The sources of the plans.
pub open spec fn sources_of(plans: Seq<Plan>) -> Seq<Seq<char>> {
    plans.map_values(|p: Plan| p.source)
}

/// What is made of the items of a sequence is rearranged as the sequence is.
proof fn lemma_mapped_rearranged<A, B>(x: Seq<A>, y: Seq<A>, f: spec_fn(A) -> B)
    requires
        x.to_multiset() == y.to_multiset(),
    ensures
        x.map_values(f).to_multiset() == y.map_values(f).to_multiset(),
    decreases x.len(),
{
    broadcast use group_multiset_axioms;

    to_multiset_len(x);
    to_multiset_len(y);
    if x.len() == 0 {
        assert(x.map_values(f) =~= y.map_values(f));
    } else {
        let a = x.last();
        let x0 = x.drop_last();
        assert(x0.push(a) =~= x);
        assert(x.contains(a));
        to_multiset_contains(x, a);
        to_multiset_contains(y, a);
        let j = choose|j: int| 0 <= j < y.len() && y[j] == a;
        let y0 = y.remove(j);
        to_multiset_build(x0, a);
        to_multiset_remove(y, j);
        assert(x0.to_multiset() =~= x.to_multiset().remove(a));
        lemma_mapped_rearranged(x0, y0, f);
        assert(x.map_values(f) =~= x0.map_values(f).push(f(a)));
        assert(y.map_values(f) =~= y0.map_values(f).insert(j, f(a)));
        to_multiset_build(x0.map_values(f), f(a));
        to_multiset_insert(y0.map_values(f), j, f(a));
    }
}

/// What `arranged` is: the entries that count, in ascending order.
pub proof fn lemma_arranged(is_sort: bool, entries: Seq<Entry>)
    ensures
        arranged(is_sort, entries).len() == entries.len(),
        arranged(is_sort, entries).to_multiset() == keyed(is_sort, entries).to_multiset(),
        sorted_by(arranged(is_sort, entries), entry_order()),
        paths_of(arranged(is_sort, entries)).to_multiset() == paths_of(entries).to_multiset(),
{
    let given = keyed(is_sort, entries);
    let order = arranged(is_sort, entries);
    lemma_entry_order_total();
    given.lemma_sort_by_ensures(entry_order());
    to_multiset_len(given);
    to_multiset_len(order);
    assert(paths_of(given) =~= paths_of(entries));
    lemma_mapped_rearranged(order, given, |e: Entry| e.path);
}

/// A directory with so many matched files gets as many plans. The plan at
/// position `i` is made with index `i`, so each index below the number of
/// files is used once; and the sources of the plans are the matched files,
/// each as often as it was matched.
pub proof fn lemma_one_plan_per_file(is_sort: bool, entries: Seq<Entry>)
    ensures
        planned(arranged(is_sort, entries)).len() == entries.len(),
        forall|i: int|
            0 <= i < entries.len() ==> #[trigger] planned(arranged(is_sort, entries))[i]
                == names_of(i as nat, arranged(is_sort, entries)[i].path),
        sources_of(planned(arranged(is_sort, entries))).to_multiset() == paths_of(
            entries,
        ).to_multiset(),
{
    lemma_arranged(is_sort, entries);
    let order = arranged(is_sort, entries);
    assert(sources_of(planned(order)) =~= paths_of(order));
}

/// The number of files in all listings together.
pub open spec fn file_count(dirs: Seq<Seq<Entry>>) -> nat
    decreases dirs.len(),
{
    if dirs.len() == 0 {
        0
    } else {
        file_count(dirs.drop_last()) + dirs.last().len()
    }
}

/// A tree gets as many plans as files were matched in all of its
/// directories together; a directory without matched files adds none.
pub proof fn lemma_one_plan_per_file_of_tree(is_sort: bool, dirs: Seq<Seq<Entry>>)
    ensures
        planned_tree(is_sort, dirs).len() == file_count(dirs),
    decreases dirs.len(),
{
    if dirs.len() > 0 {
        lemma_one_plan_per_file_of_tree(is_sort, dirs.drop_last());
        lemma_arranged(is_sort, dirs.last());
    }
}

/// Where files are sorted by capture time, a file whose key is unknown is
/// numbered before every file whose key is known.
pub proof fn lemma_unknown_first(entries: Seq<Entry>, i: int, j: int)
    requires
        0 <= i < entries.len(),
        0 <= j < entries.len(),
        arranged(true, entries)[i].key is None,
        arranged(true, entries)[j].key is Some,
    ensures
        i < j,
{
    lemma_arranged(true, entries);
    lemma_missing_key_first(arranged(true, entries), i, j);
}

/// Where files are sorted by capture time, files that share a key are
/// numbered in the lexical order of their paths.
pub proof fn lemma_ties_by_path(entries: Seq<Entry>, i: int, j: int)
    requires
        0 <= i < j < entries.len(),
        arranged(true, entries)[i].key == arranged(true, entries)[j].key,
    ensures
        text_leq(arranged(true, entries)[i].path, arranged(true, entries)[j].path),
{
    lemma_arranged(true, entries);
    lemma_ties_in_path_order(arranged(true, entries), i, j);
}

/// Where files are not sorted by capture time, they are numbered in the
/// lexical order of their paths.
pub proof fn lemma_unsorted_by_path(entries: Seq<Entry>, i: int, j: int)
    requires
        0 <= i < j < entries.len(),
    ensures
        text_leq(arranged(false, entries)[i].path, arranged(false, entries)[j].path),
{
    lemma_arranged(false, entries);
    let order = arranged(false, entries);
    let given = keyed(false, entries);
    assert forall|k: int| 0 <= k < order.len() implies (#[trigger] order[k]).key is None by {
        assert(order.contains(order[k]));
        to_multiset_contains(order, order[k]);
        to_multiset_contains(given, order[k]);
    }
    lemma_ties_in_path_order(order, i, j);
}

/// The names of the plans of one directory keep out of each other's way,
/// provided that no file was matched twice and that no matched file has
/// the reserved extension.
pub proof fn lemma_directory_names_apart(is_sort: bool, entries: Seq<Entry>)
    requires
        paths_of(entries).no_duplicates(),
        forall|k: int|
            0 <= k < entries.len() ==> extension_of((#[trigger] entries[k]).path)
                != reserved_extension(),
    ensures
        names_apart(planned(arranged(is_sort, entries))),
{
    lemma_arranged(is_sort, entries);
    let order = arranged(is_sort, entries);
    let plans = planned(order);
    paths_of(entries).lemma_multiset_has_no_duplicates();
    paths_of(order).lemma_multiset_has_no_duplicates_conv();
    assert forall|i: int| 0 <= i < order.len() implies extension_of((#[trigger] order[i]).path)
        != reserved_extension() by {
        assert(paths_of(order)[i] == order[i].path);
        assert(paths_of(order).contains(order[i].path));
        to_multiset_contains(paths_of(order), order[i].path);
        to_multiset_contains(paths_of(entries), order[i].path);
        let k = choose|k: int|
            0 <= k < paths_of(entries).len() && paths_of(entries)[k] == order[i].path;
        assert(entries[k].path == order[i].path);
    }
    assert forall|i: int, j: int| 0 <= i < plans.len() && 0 <= j < plans.len() implies {
        &&& (#[trigger] plans[i]).staging != (#[trigger] plans[j]).source
        &&& plans[i].staging != plans[j].destination
        &&& i != j ==> plans[i].source != plans[j].source && plans[i].staging != plans[j].staging
            && plans[i].destination != plans[j].destination
    } by {
        let f = order[i].path;
        let g = order[j].path;
        assert(extension_of(order[j].path) != reserved_extension());
        lemma_staging_is_no_source(i as nat, f, g);
        lemma_staging_is_no_destination(i as nat, f, j as nat, g);
        if i != j {
            assert(paths_of(order)[i] != paths_of(order)[j]);
            if plans[i].staging == plans[j].staging {
                lemma_stagings_distinct(i as nat, f, j as nat, g);
            }
            if plans[i].destination == plans[j].destination {
                lemma_destinations_distinct(i as nat, f, j as nat, g);
            }
        }
    }
}

/// Whether the listings are those of the directories of a tree: no file is
/// listed twice, no listed file has the reserved extension, and the files
/// of different listings lie in different directories.
pub open spec fn well_listed(dirs: Seq<Seq<Entry>>) -> bool {
    forall|d: int, a: int, e: int, b: int|
        0 <= d < dirs.len() && 0 <= a < dirs[d].len() && 0 <= e < dirs.len() && 0 <= b
            < dirs[e].len() ==> {
            &&& extension_of((#[trigger] dirs[d][a]).path) != reserved_extension()
            &&& (d != e || a != b) ==> dirs[d][a].path != (#[trigger] dirs[e][b]).path
            &&& d != e ==> parent_of(dirs[d][a].path) != parent_of(dirs[e][b].path)
        }
}

/// Whether `plan` is a plan for a file of `listing`.
pub open spec fn from_listing(plan: Plan, listing: Seq<Entry>) -> bool {
    exists|a: int, i: nat|
        0 <= a < listing.len() && plan == #[trigger] names_of(i, listing[a].path)
}

/// Every plan of a directory is a plan for one of its files.
proof fn lemma_plans_from_listing(is_sort: bool, listing: Seq<Entry>, j: int)
    requires
        0 <= j < listing.len(),
    ensures
        from_listing(planned(arranged(is_sort, listing))[j], listing),
{
    lemma_arranged(is_sort, listing);
    let order = arranged(is_sort, listing);
    assert(paths_of(order)[j] == order[j].path);
    assert(paths_of(order).contains(order[j].path));
    to_multiset_contains(paths_of(order), order[j].path);
    to_multiset_contains(paths_of(listing), order[j].path);
    let a = choose|a: int|
        0 <= a < paths_of(listing).len() && paths_of(listing)[a] == order[j].path;
    assert(planned(order)[j] == names_of(j as nat, listing[a].path));
}

/// Every plan of a tree is a plan for a file of one of its directories.
proof fn lemma_plans_from_tree(is_sort: bool, dirs: Seq<Seq<Entry>>, k: int)
    requires
        0 <= k < planned_tree(is_sort, dirs).len(),
    ensures
        exists|d: int|
            0 <= d < dirs.len() && from_listing(planned_tree(is_sort, dirs)[k], #[trigger] dirs[d]),
    decreases dirs.len(),
{
    let early = planned_tree(is_sort, dirs.drop_last());
    if k < early.len() {
        lemma_plans_from_tree(is_sort, dirs.drop_last(), k);
        let d = choose|d: int|
            0 <= d < dirs.drop_last().len() && from_listing(
                early[k],
                #[trigger] dirs.drop_last()[d],
            );
        assert(dirs[d] == dirs.drop_last()[d]);
    } else {
        lemma_arranged(is_sort, dirs.last());
        lemma_plans_from_listing(is_sort, dirs.last(), k - early.len());
        assert(dirs[dirs.len() - 1] == dirs.last());
    }
}

/// The names of the plans of a whole tree keep out of each other's way,
/// provided that the listings are those of the directories of a tree.
pub proof fn lemma_tree_names_apart(is_sort: bool, dirs: Seq<Seq<Entry>>)
    requires
        well_listed(dirs),
    ensures
        names_apart(planned_tree(is_sort, dirs)),
    decreases dirs.len(),
{
    let plans = planned_tree(is_sort, dirs);
    if dirs.len() > 0 {
        let n = dirs.len() - 1;
        let early = planned_tree(is_sort, dirs.drop_last());
        let late = planned(arranged(is_sort, dirs.last()));
        assert(well_listed(dirs.drop_last())) by {
            assert forall|d: int, a: int, e: int, b: int|
                0 <= d < dirs.drop_last().len() && 0 <= a < dirs.drop_last()[d].len() && 0 <= e
                    < dirs.drop_last().len() && 0 <= b < dirs.drop_last()[e].len() implies {
                &&& extension_of((#[trigger] dirs.drop_last()[d][a]).path) != reserved_extension()
                &&& (d != e || a != b) ==> dirs.drop_last()[d][a].path
                    != (#[trigger] dirs.drop_last()[e][b]).path
                &&& d != e ==> parent_of(dirs.drop_last()[d][a].path) != parent_of(
                    dirs.drop_last()[e][b].path,
                )
            } by {
                assert(dirs.drop_last()[d][a] == dirs[d][a]);
                assert(dirs.drop_last()[e][b] == dirs[e][b]);
            }
        }
        lemma_tree_names_apart(is_sort, dirs.drop_last());
        assert(paths_of(dirs.last()).no_duplicates()) by {
            assert forall|a: int, b: int|
                0 <= a < dirs.last().len() && 0 <= b < dirs.last().len() && a != b implies paths_of(
                dirs.last(),
            )[a] != paths_of(dirs.last())[b] by {
                assert(dirs[n][a].path != dirs[n][b].path);
            }
        }
        assert forall|k: int| 0 <= k < dirs.last().len() implies extension_of(
            (#[trigger] dirs.last()[k]).path,
        ) != reserved_extension() by {
            assert(extension_of(dirs[n][k].path) != reserved_extension());
        }
        lemma_directory_names_apart(is_sort, dirs.last());
        lemma_arranged(is_sort, dirs.last());
        assert forall|i: int, j: int| 0 <= i < plans.len() && 0 <= j < plans.len() implies {
            &&& (#[trigger] plans[i]).staging != (#[trigger] plans[j]).source
            &&& plans[i].staging != plans[j].destination
            &&& i != j ==> plans[i].source != plans[j].source && plans[i].staging
                != plans[j].staging && plans[i].destination != plans[j].destination
        } by {
            if i < early.len() && j < early.len() {
                assert(plans[i] == early[i] && plans[j] == early[j]);
            } else if i >= early.len() && j >= early.len() {
                assert(plans[i] == late[i - early.len()] && plans[j] == late[j - early.len()]);
            } else {
                let (x, y) = if i < j {
                    (i, j)
                } else {
                    (j, i)
                };
                lemma_plans_from_tree(is_sort, dirs.drop_last(), x);
                lemma_plans_from_listing(is_sort, dirs.last(), y - early.len());
                let d = choose|d: int|
                    0 <= d < dirs.drop_last().len() && from_listing(
                        early[x],
                        #[trigger] dirs.drop_last()[d],
                    );
                let (a, u) = choose|a: int, u: nat|
                    0 <= a < dirs[d].len() && early[x] == #[trigger] names_of(u, dirs[d][a].path);
                let (b, v) = choose|b: int, v: nat|
                    0 <= b < dirs[n].len() && late[y - early.len()] == #[trigger] names_of(
                        v,
                        dirs[n][b].path,
                    );
                let f = dirs[d][a].path;
                let g = dirs[n][b].path;
                assert(plans[x] == names_of(u, f));
                assert(plans[y] == names_of(v, g));
                assert(f != g);
                assert(parent_of(f) != parent_of(g));
                assert(extension_of(dirs[d][a].path) != reserved_extension());
                assert(extension_of(dirs[n][b].path) != reserved_extension());
                lemma_staging_is_no_source(u, f, g);
                lemma_staging_is_no_source(v, g, f);
                lemma_staging_is_no_destination(u, f, v, g);
                lemma_staging_is_no_destination(v, g, u, f);
                if names_of(u, f).staging == names_of(v, g).staging {
                    lemma_stagings_distinct(u, f, v, g);
                }
                if names_of(u, f).destination == names_of(v, g).destination {
                    lemma_destinations_distinct(u, f, v, g);
                }
            }
        }
    }
}

} // verus!
