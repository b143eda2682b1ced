//! The three names of one rename: where a file is, where it waits, and
//! where it ends up.

use crate::text::{
    chars_of, decimal, lacks, last_index_of, lemma_decimal_digits, lemma_decimal_injective,
    lemma_last_index_of, lemma_last_index_of_unique, push_decimal, rfind,
};
use vstd::prelude::*;

verus! {

/// One planned rename, as texts.
pub struct Plan {
    /// The path the file has now.
    pub source: Seq<char>,
    /// The path it is parked at between the two passes.
    pub staging: Seq<char>,
    /// The path it ends at.
    pub destination: Seq<char>,
}

/// The extension that is reserved for staging names.
pub open spec fn reserved_extension() -> Seq<char> {
    seq!['b', 'r', 't', 'm', 'p']
}

/// The suffix that staging names carry: a dot and the reserved extension.
pub open spec fn marker() -> Seq<char> {
    seq!['.'] + reserved_extension()
}

/// The directory part of `path`: what stands before its last `/`, and
/// nothing where it has none.
pub open spec fn parent_of(path: Seq<char>) -> Seq<char> {
    let k = last_index_of(path, '/');
    if k < 0 {
        Seq::empty()
    } else {
        path.take(k)
    }
}

/// The last segment of `path`: what stands behind its last `/`.
pub open spec fn name_of(path: Seq<char>) -> Seq<char> {
    path.skip(last_index_of(path, '/') + 1)
}

/// The extension of the file at `path`: what stands behind the last `.` of
/// its name, and nothing where the name has none.
pub open spec fn extension_of(path: Seq<char>) -> Seq<char> {
    let name = name_of(path);
    let k = last_index_of(name, '.');
    if k < 0 {
        Seq::empty()
    } else {
        name.skip(k + 1)
    }
}

/// The tag of a directory: the name of its parent followed by its own name.
/// A directory with fewer segments contributes what it has.
pub open spec fn tag_of(dir: Seq<char>) -> Seq<char> {
    name_of(parent_of(dir)) + name_of(dir)
}

/// The staging name of the file with index `i` in `dir`.
pub open spec fn staging_of(dir: Seq<char>, i: nat) -> Seq<char> {
    dir + seq!['/'] + decimal(i) + marker()
}

/// The final name of the file with index `i` and extension `ext` in `dir`.
pub open spec fn destination_of(dir: Seq<char>, i: nat, ext: Seq<char>) -> Seq<char> {
    dir + seq!['/'] + tag_of(dir) + decimal(i) + seq!['.'] + ext
}

/// The plan for the file at `file` that was given index `i`.
pub open spec fn names_of(i: nat, file: Seq<char>) -> Plan {
    Plan {
        source: file,
        staging: staging_of(parent_of(file), i),
        destination: destination_of(parent_of(file), i, extension_of(file)),
    }
}

/// A path made of a directory, a `/` and a name without `/` splits back
/// into that directory and that name.
pub proof fn lemma_split_joined(dir: Seq<char>, name: Seq<char>)
    requires
        lacks(name, '/'),
    ensures
        parent_of(dir + seq!['/'] + name) == dir,
        name_of(dir + seq!['/'] + name) == name,
{
    let path = dir + seq!['/'] + name;
    lemma_last_index_of_unique(path, '/', dir.len() as int);
    assert(path.take(dir.len() as int) =~= dir);
    assert(path.skip(dir.len() as int + 1) =~= name);
}

/// A name made of a stem, a `.` and an extension without `.` has that
/// extension behind its last `.`.
pub proof fn lemma_split_dotted(stem: Seq<char>, ext: Seq<char>)
    requires
        lacks(ext, '.'),
    ensures
        last_index_of(stem + seq!['.'] + ext, '.') == stem.len(),
        (stem + seq!['.'] + ext).skip(stem.len() as int + 1) == ext,
        (stem + seq!['.'] + ext).take(stem.len() as int) == stem,
{
    let name = stem + seq!['.'] + ext;
    lemma_last_index_of_unique(name, '.', stem.len() as int);
    assert(name.skip(stem.len() as int + 1) =~= ext);
    assert(name.take(stem.len() as int) =~= stem);
}

/// The last segment of a path holds no `/`, and an extension neither `/`
/// nor `.`.
pub proof fn lemma_segments_are_plain(path: Seq<char>)
    ensures
        lacks(name_of(path), '/'),
        lacks(tag_of(path), '/'),
        lacks(extension_of(path), '/'),
        lacks(extension_of(path), '.'),
{
    lemma_last_index_of(path, '/');
    lemma_last_index_of(parent_of(path), '/');
    lemma_last_index_of(name_of(path), '.');
}

/// The name part of a staging name, and how the whole splits.
proof fn lemma_staging_shape(dir: Seq<char>, i: nat)
    ensures
        staging_of(dir, i) == dir + seq!['/'] + (decimal(i) + marker()),
        parent_of(staging_of(dir, i)) == dir,
        name_of(staging_of(dir, i)) == decimal(i) + seq!['.'] + reserved_extension(),
        last_index_of(name_of(staging_of(dir, i)), '.') == decimal(i).len(),
        extension_of(staging_of(dir, i)) == reserved_extension(),
{
    let name = decimal(i) + marker();
    lemma_decimal_digits(i);
    assert(staging_of(dir, i) =~= dir + seq!['/'] + name);
    assert(name =~= decimal(i) + seq!['.'] + reserved_extension());
    lemma_split_joined(dir, name);
    lemma_split_dotted(decimal(i), reserved_extension());
}

/// The name part of a final name, and how the whole splits.
proof fn lemma_destination_shape(dir: Seq<char>, i: nat, ext: Seq<char>)
    requires
        lacks(ext, '/'),
        lacks(ext, '.'),
    ensures
        parent_of(destination_of(dir, i, ext)) == dir,
        name_of(destination_of(dir, i, ext)) == (tag_of(dir) + decimal(i)) + seq!['.'] + ext,
        last_index_of(name_of(destination_of(dir, i, ext)), '.') == tag_of(dir).len() + decimal(
            i,
        ).len(),
        extension_of(destination_of(dir, i, ext)) == ext,
{
    let stem = tag_of(dir) + decimal(i);
    let name = stem + seq!['.'] + ext;
    lemma_decimal_digits(i);
    lemma_segments_are_plain(dir);
    assert(destination_of(dir, i, ext) =~= dir + seq!['/'] + name);
    lemma_split_joined(dir, name);
    lemma_split_dotted(stem, ext);
}

/// Two files never get the same final name unless they have the same
/// index: within a directory, and across directories too, final names are
/// pairwise distinct.
pub proof fn lemma_destinations_distinct(i: nat, file: Seq<char>, j: nat, other: Seq<char>)
    requires
        names_of(i, file).destination == names_of(j, other).destination,
    ensures
        i == j,
        parent_of(file) == parent_of(other),
{
    let d1 = parent_of(file);
    let d2 = parent_of(other);
    lemma_segments_are_plain(file);
    lemma_segments_are_plain(other);
    lemma_destination_shape(d1, i, extension_of(file));
    lemma_destination_shape(d2, j, extension_of(other));
    let s1 = tag_of(d1) + decimal(i);
    let s2 = tag_of(d2) + decimal(j);
    let n1 = s1 + seq!['.'] + extension_of(file);
    let n2 = s2 + seq!['.'] + extension_of(other);
    assert(n1 == n2);
    lemma_split_dotted(s1, extension_of(file));
    lemma_split_dotted(s2, extension_of(other));
    assert(s1 == s2);
    assert(decimal(i) =~= s1.skip(tag_of(d1).len() as int));
    assert(decimal(j) =~= s2.skip(tag_of(d2).len() as int));
    lemma_decimal_injective(i, j);
}

/// Two files never get the same staging name unless they have the same
/// index and stand in the same directory.
pub proof fn lemma_stagings_distinct(i: nat, file: Seq<char>, j: nat, other: Seq<char>)
    requires
        names_of(i, file).staging == names_of(j, other).staging,
    ensures
        i == j,
        parent_of(file) == parent_of(other),
{
    lemma_staging_shape(parent_of(file), i);
    lemma_staging_shape(parent_of(other), j);
    let n1 = decimal(i) + seq!['.'] + reserved_extension();
    let n2 = decimal(j) + seq!['.'] + reserved_extension();
    assert(n1 == n2);
    lemma_split_dotted(decimal(i), reserved_extension());
    lemma_split_dotted(decimal(j), reserved_extension());
    lemma_decimal_injective(i, j);
}

/// A staging name is no file of the batch: it equals no path that lies in
/// another directory or whose extension is not the reserved one.
pub proof fn lemma_staging_is_no_source(i: nat, file: Seq<char>, other: Seq<char>)
    requires
        extension_of(other) != reserved_extension() || parent_of(other) != parent_of(file),
    ensures
        names_of(i, file).staging != other,
{
    lemma_staging_shape(parent_of(file), i);
}

/// A staging name is no final name of the batch: it equals the final name
/// of no file that lies in another directory or whose extension is not the
/// reserved one.
pub proof fn lemma_staging_is_no_destination(i: nat, file: Seq<char>, j: nat, other: Seq<char>)
    requires
        extension_of(other) != reserved_extension() || parent_of(other) != parent_of(file),
    ensures
        names_of(i, file).staging != names_of(j, other).destination,
{
    lemma_segments_are_plain(other);
    lemma_staging_shape(parent_of(file), i);
    lemma_destination_shape(parent_of(other), j, extension_of(other));
}

/// Planning again keeps what planning gave: a file that bears the final
/// name of `file` gets, under the index `k`, the final name that `file`
/// itself would get under `k`. Under the index that it was named with, it
/// keeps its name.
pub proof fn lemma_final_names_are_kept(i: nat, k: nat, file: Seq<char>)
    ensures
        names_of(k, names_of(i, file).destination).destination == names_of(k, file).destination,
        names_of(i, names_of(i, file).destination).destination == names_of(i, file).destination,
{
    lemma_segments_are_plain(file);
    lemma_destination_shape(parent_of(file), i, extension_of(file));
}

/// The three paths of one rename.
#[derive(Debug, Clone, PartialEq, Eq)]
pub struct Names {
    /// The path the file has now.
    pub old: String,
    /// The staging path.
    pub tmp: String,
    /// The final path.
    pub new: String,
}

impl View for Names {
    type V = Plan;

    open spec fn view(&self) -> Plan {
        Plan { source: self.old@, staging: self.tmp@, destination: self.new@ }
    }
}

/// The names as plans.
pub open spec fn plans_of(names: Seq<Names>) -> Seq<Plan> {
    names.map_values(|n: Names| n@)
}

impl Names {
    /// Derives the names of the file `indexed.1`, which has index `indexed.0`
    /// among the files of its directory.
    pub fn construct(indexed: (usize, String)) -> (names: Names)
        ensures
            names@ == names_of(indexed.0 as nat, indexed.1@),
    {
        let i = indexed.0;
        let file = indexed.1;
        let path = file.as_str();
        let chars = chars_of(path);
        let n = chars.len();
        let ghost whole = chars@;
        assert(whole.subrange(0, n as int) == whole);

        let cut = rfind(&chars, 0, n, '/');
        let dir_end: usize = match cut {
            Some(k) => k,
            None => 0,
        };
        let name_start: usize = match cut {
            Some(k) => k + 1,
            None => 0,
        };
        let ghost dir = parent_of(whole);
        let ghost name = name_of(whole);
        assert(dir == whole.subrange(0, dir_end as int));
        assert(name == whole.subrange(name_start as int, n as int));

        let dot = rfind(&chars, name_start, n, '.');
        let ext_start: usize = match dot {
            Some(k) => k + 1,
            None => n,
        };
        assert(extension_of(whole) == whole.subrange(ext_start as int, n as int));

        let near_cut = rfind(&chars, 0, dir_end, '/');
        let near_start: usize = match near_cut {
            Some(k) => k + 1,
            None => 0,
        };
        let far_end: usize = match near_cut {
            Some(k) => k,
            None => 0,
        };
        let ghost up = parent_of(dir);
        assert(name_of(dir) == whole.subrange(near_start as int, dir_end as int));
        assert(up == whole.subrange(0, far_end as int));

        let far_cut = rfind(&chars, 0, far_end, '/');
        let far_start: usize = match far_cut {
            Some(k) => k + 1,
            None => 0,
        };
        assert(name_of(up) == whole.subrange(far_start as int, far_end as int));

        let dir_text = path.substring_char(0, dir_end);
        let near = path.substring_char(near_start, dir_end);
        let far = path.substring_char(far_start, far_end);
        let ext = path.substring_char(ext_start, n);

        proof {
            reveal_strlit("/");
            reveal_strlit(".");
            reveal_strlit(".brtmp");
            assert("/"@ == seq!['/']);
            assert("."@ == seq!['.']);
            assert(".brtmp"@ =~= marker());
        }
        let mut tmp = String::from_str(dir_text);
        tmp.append("/");
        push_decimal(&mut tmp, i);
        tmp.append(".brtmp");

        let mut new = String::from_str(dir_text);
        new.append("/");
        new.append(far);
        new.append(near);
        push_decimal(&mut new, i);
        new.append(".");
        new.append(ext);

        assert(new@ == destination_of(dir, i as nat, extension_of(whole)));
        Names { old: file, tmp, new }
    }
}

} // verus!
