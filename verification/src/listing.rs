//! The files that were found, directory by directory, and the plans that
//! follow from them.

use crate::guarantees::lemma_arranged;
use crate::names::{names_of, plans_of, Names, Plan};
use crate::order::{entry_order, lemma_entry_order_total, Entry};
use itertools::Itertools;
use vstd::prelude::*;
use vstd::relations::sorted_by;
use vstd::seq_lib::lemma_sorted_unique;

verus! {

/// The depth below the starting directory from which directories hold
/// files to rename: the starting directory itself and its children do not.
pub const MIN_DEPTH: usize = 2;

/// What the walk over the tree found at one place.
#[derive(Debug, Clone, PartialEq, Eq)]
pub struct Walked {
    /// The path of the place.
    pub path: String,
    /// How many directories below the starting directory it lies.
    pub depth: usize,
    /// Whether it is a directory.
    pub is_dir: bool,
}

/// Whether files are looked for at `found`: it could be read, and it is a
/// directory deep enough in the tree.
pub open spec fn is_leaf(found: Option<&Walked>) -> bool {
    found matches Some(place) && place.is_dir && place.depth >= MIN_DEPTH
}

/// The pattern that the files of `found` must match, where files are looked
/// for there: the path of the directory, a `/` and `glob`. A place that could
/// not be read (`found` is `None`) is passed over like one that is no
/// directory or lies too high in the tree.
pub fn glob_target(found: Option<&Walked>, glob: &str) -> (pattern: Option<String>)
    ensures
        pattern is Some <==> is_leaf(found),
        is_leaf(found) ==> pattern->0@ == found->0.path@ + seq!['/'] + glob@,
{
    match found {
        Some(place) => {
            if place.is_dir && place.depth >= MIN_DEPTH {
                proof {
                    reveal_strlit("/");
                    assert("/"@ =~= seq!['/']);
                }
                let mut pattern = place.path.clone();
                pattern.append("/");
                pattern.append(glob);
                Some(pattern)
            } else {
                None
            }
        },
        None => None,
    }
}

/// A file that matched the pattern, with its capture key where one was read.
#[derive(Debug, Clone, PartialEq, Eq)]
pub struct Matched {
    /// The path of the file.
    pub path: String,
    /// The capture key of the file; `None` where it is unknown.
    pub key: Option<String>,
}

impl View for Matched {
    type V = Entry;

    open spec fn view(&self) -> Entry {
        Entry {
            key: match self.key {
                Some(k) => Some(k@),
                None => None,
            },
            path: self.path@,
        }
    }
}

/// The matched files as the ordering sees them.
pub open spec fn entries_of(files: Seq<Matched>) -> Seq<Entry> {
    files.map_values(|m: Matched| m@)
}

/// The entries with the keys that count: their own where files are sorted
/// by capture time, none otherwise.
pub open spec fn keyed(is_sort: bool, entries: Seq<Entry>) -> Seq<Entry> {
    if is_sort {
        entries
    } else {
        entries.map_values(|e: Entry| Entry { key: None, path: e.path })
    }
}

/// The entries in the order in which they are numbered.
pub open spec fn arranged(is_sort: bool, entries: Seq<Entry>) -> Seq<Entry> {
    keyed(is_sort, entries).sort_by(entry_order())
}

/// The plans of the files of one directory, once in order: the file at
/// position `i` has index `i`.
pub open spec fn planned(arranged: Seq<Entry>) -> Seq<Plan> {
    Seq::new(arranged.len(), |i: int| names_of(i as nat, arranged[i].path))
}

/// The plans of all directories, one directory after the other.
pub open spec fn planned_tree(is_sort: bool, dirs: Seq<Seq<Entry>>) -> Seq<Plan>
    decreases dirs.len(),
{
    if dirs.len() == 0 {
        Seq::empty()
    } else {
        planned_tree(is_sort, dirs.drop_last()) + planned(arranged(is_sort, dirs.last()))
    }
}

/// The directories as the ordering sees them.
pub open spec fn listings_of(dirs: Seq<Vec<Matched>>) -> Seq<Seq<Entry>> {
    dirs.map_values(|d: Vec<Matched>| entries_of(d@))
}

/// What the `DateTime` field of the primary image of `image` displays as,
/// where `image` is an image file that carries Exif data with that field,
/// and `None` where it is not.
pub uninterp spec fn exif_date_time(image: Seq<u8>) -> Option<Seq<char>>;

/// A key as text.
pub open spec fn key_text(key: Option<String>) -> Option<Seq<char>> {
    match key {
        Some(k) => Some(k@),
        None => None,
    }
}

/// Parses `image` with `exif::Reader::read_from_container`, looks up the
/// `DateTime` field of the primary image with `exif::Exif::get_field` and
/// renders it with `exif::Field::display_value`. The result depends on the
/// bytes alone; it is `None` where the bytes do not parse or hold no such
/// field.
#[verifier::external_body]
fn read_date_time(image: &Vec<u8>) -> (date: Option<String>)
    ensures
        key_text(date) == exif_date_time(image@),
{
    let mut bytes = std::io::Cursor::new(image.as_slice());
    let exif = exif::Reader::new().read_from_container(&mut bytes).ok()?;
    let field = exif.get_field(exif::Tag::DateTime, exif::In::PRIMARY)?;
    Some(field.display_value().to_string())
}

/// The capture key of a file: the date and time that its Exif data record,
/// or `None` where the file could not be read (`image` is `None`) or
/// records none.
pub fn get_exif_date(image: Option<&Vec<u8>>) -> (key: Option<String>)
    ensures
        key_text(key) == match image {
            Some(bytes) => exif_date_time(bytes@),
            None => None,
        },
{
    match image {
        Some(bytes) => read_date_time(bytes),
        None => None,
    }
}

impl Matched {
    /// The pair that files are ordered by: the key first, the path second.
    pub fn sort_key(&self) -> (pair: (Option<String>, String))
        ensures
            key_text(pair.0) == self@.key,
            pair.1@ == self@.path,
    {
        let key = match &self.key {
            Some(k) => Some(k.clone()),
            None => None,
        };
        (key, self.path.clone())
    }
}

/// Sorts with `itertools::Itertools::sorted_by_key`, by `Matched::sort_key`.
/// The result holds the items of the argument, each as often as the
/// argument does, in ascending order of their pairs. The order of the pairs
/// is that of std: by the first component, then by the second; `None`
/// before `Some`; strings byte by byte, which in UTF-8 is code point by
/// code point. The crate sorts stably, which shows in nothing here: the
/// pair is all that an entry consists of, so equal pairs are equal entries.
#[verifier::external_body]
fn sorted_by_key(items: Vec<Matched>) -> (sorted: Vec<Matched>)
    ensures
        entries_of(sorted@).to_multiset() == entries_of(items@).to_multiset(),
        sorted_by(entries_of(sorted@), entry_order()),
{
    items.into_iter().sorted_by_key(|m| m.sort_key()).collect()
}

/// Copies the files, with their keys where `is_sort` holds and without
/// them otherwise.
fn with_keys(is_sort: bool, files: &Vec<Matched>) -> (copy: Vec<Matched>)
    ensures
        entries_of(copy@) == keyed(is_sort, entries_of(files@)),
{
    let mut copy: Vec<Matched> = Vec::new();
    let mut i: usize = 0;
    while i < files.len()
        invariant
            i <= files.len(),
            copy.len() == i,
            forall|j: int| 0 <= j < i ==> copy[j]@ == keyed(is_sort, entries_of(files@))[j],
        decreases files.len() - i,
    {
        let key = if is_sort {
            match &files[i].key {
                Some(k) => Some(k.clone()),
                None => None,
            }
        } else {
            None
        };
        copy.push(Matched { path: files[i].path.clone(), key });
        i = i + 1;
    }
    assert(entries_of(copy@) =~= keyed(is_sort, entries_of(files@)));
    copy
}

/// Plans the renames of the files of one directory: puts them in order, by
/// capture key where `is_sort` holds and by path otherwise, and numbers
/// them from zero.
pub fn glob_files(is_sort: bool, files: &Vec<Matched>) -> (names: Vec<Names>)
    ensures
        names.len() == files.len(),
        plans_of(names@) == planned(arranged(is_sort, entries_of(files@))),
{
    let sorted = sorted_by_key(with_keys(is_sort, files));
    let ghost order = arranged(is_sort, entries_of(files@));
    proof {
        lemma_arranged(is_sort, entries_of(files@));
        lemma_entry_order_total();
        lemma_sorted_unique(entries_of(sorted@), order, entry_order());
    }
    let mut names: Vec<Names> = Vec::new();
    let mut i: usize = 0;
    while i < sorted.len()
        invariant
            i <= sorted.len(),
            names.len() == i,
            entries_of(sorted@) == order,
            forall|j: int| 0 <= j < i ==> names[j]@ == planned(order)[j],
        decreases sorted.len() - i,
    {
        assert(entries_of(sorted@)[i as int] == sorted[i as int]@);
        names.push(Names::construct((i, sorted[i].path.clone())));
        i = i + 1;
    }
    assert(plans_of(names@) =~= planned(order));
    names
}

/// Plans the renames of a whole tree: the plans of each directory, one
/// directory after the other.
pub fn get_names(is_sort: bool, dirs: &Vec<Vec<Matched>>) -> (names: Vec<Names>)
    ensures
        plans_of(names@) == planned_tree(is_sort, listings_of(dirs@)),
{
    let mut names: Vec<Names> = Vec::new();
    let mut d: usize = 0;
    while d < dirs.len()
        invariant
            d <= dirs.len(),
            plans_of(names@) == planned_tree(is_sort, listings_of(dirs@).take(d as int)),
        decreases dirs.len() - d,
    {
        let mut more = glob_files(is_sort, &dirs[d]);
        let ghost before = plans_of(names@);
        let ghost added = plans_of(more@);
        names.append(&mut more);
        proof {
            let seen = listings_of(dirs@).take(d + 1);
            assert(seen.drop_last() == listings_of(dirs@).take(d as int));
            assert(seen.last() == entries_of(dirs[d as int]@));
            assert(plans_of(names@) =~= before + added);
        }
        d = d + 1;
    }
    assert(listings_of(dirs@).take(dirs.len() as int) == listings_of(dirs@));
    names
}

} // verus!
