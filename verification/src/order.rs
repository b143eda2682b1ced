//! The order in which the files of a directory are numbered.
//!
//! Files are ordered by capture key first and by path second. A missing key
//! comes before every key that is present; texts are ordered character by
//! character, by code point, a proper prefix before its extensions.

use vstd::prelude::*;
use vstd::relations::{sorted_by, total_ordering};

verus! {

/// A matched file as the ordering sees it.
pub struct Entry {
    /// The capture key, where one is known.
    pub key: Option<Seq<char>>,
    /// The path of the file.
    pub path: Seq<char>,
}

/// Whether `a` comes before `b` or equals it, in lexical order.
pub open spec fn text_leq(a: Seq<char>, b: Seq<char>) -> bool
    decreases a.len(),
{
    if a.len() == 0 {
        true
    } else if b.len() == 0 {
        false
    } else if a[0] != b[0] {
        (a[0] as int) < (b[0] as int)
    } else {
        text_leq(a.drop_first(), b.drop_first())
    }
}

/// Whether key `a` comes before key `b` or equals it.
pub open spec fn key_leq(a: Option<Seq<char>>, b: Option<Seq<char>>) -> bool {
    match a {
        None => true,
        Some(x) => match b {
            None => false,
            Some(y) => text_leq(x, y),
        },
    }
}

/// Whether entry `a` is numbered before entry `b`, or equals it.
pub open spec fn entry_leq(a: Entry, b: Entry) -> bool {
    if a.key == b.key {
        text_leq(a.path, b.path)
    } else {
        key_leq(a.key, b.key)
    }
}

/// `entry_leq` as a relation.
pub open spec fn entry_order() -> spec_fn(Entry, Entry) -> bool {
    |a: Entry, b: Entry| entry_leq(a, b)
}

/// Every text is at most itself.
pub proof fn lemma_text_leq_reflexive(a: Seq<char>)
    ensures
        text_leq(a, a),
    decreases a.len(),
{
    if a.len() > 0 {
        lemma_text_leq_reflexive(a.drop_first());
    }
}

/// Two texts that are each at most the other are the same text.
pub proof fn lemma_text_leq_antisymmetric(a: Seq<char>, b: Seq<char>)
    requires
        text_leq(a, b),
        text_leq(b, a),
    ensures
        a == b,
    decreases a.len(),
{
    if a.len() == 0 || b.len() == 0 {
        assert(a =~= b);
    } else {
        lemma_text_leq_antisymmetric(a.drop_first(), b.drop_first());
        assert(a =~= seq![a[0]] + a.drop_first());
        assert(b =~= seq![b[0]] + b.drop_first());
    }
}

/// The lexical order is transitive.
pub proof fn lemma_text_leq_transitive(a: Seq<char>, b: Seq<char>, c: Seq<char>)
    requires
        text_leq(a, b),
        text_leq(b, c),
    ensures
        text_leq(a, c),
    decreases a.len(),
{
    if a.len() > 0 && b.len() > 0 && c.len() > 0 && a[0] == b[0] && b[0] == c[0] {
        lemma_text_leq_transitive(a.drop_first(), b.drop_first(), c.drop_first());
    }
}

/// Of two texts one is at most the other.
pub proof fn lemma_text_leq_total(a: Seq<char>, b: Seq<char>)
    ensures
        text_leq(a, b) || text_leq(b, a),
    decreases a.len(),
{
    if a.len() > 0 && b.len() > 0 && a[0] == b[0] {
        lemma_text_leq_total(a.drop_first(), b.drop_first());
    }
}

/// The order of entries is total: reflexive, antisymmetric, transitive, and
/// it relates any two entries one way or the other.
pub proof fn lemma_entry_order_total()
    ensures
        total_ordering(entry_order()),
{
    let r = entry_order();
    assert forall|x: Entry| #[trigger] r(x, x) by {
        lemma_text_leq_reflexive(x.path);
    }
    assert forall|x: Entry, y: Entry| #[trigger] r(x, y) && #[trigger] r(y, x) implies x == y by {
        if x.key == y.key {
            lemma_text_leq_antisymmetric(x.path, y.path);
        } else {
            lemma_text_leq_antisymmetric(x.key->0, y.key->0);
        }
    }
    assert forall|x: Entry, y: Entry, z: Entry| #[trigger]
        r(x, y) && #[trigger] r(y, z) implies r(x, z) by {
        if x.key == y.key && y.key == z.key {
            lemma_text_leq_transitive(x.path, y.path, z.path);
        } else if x.key is Some && y.key is Some && z.key is Some {
            if x.key != y.key {
                if y.key != z.key {
                    lemma_text_leq_transitive(x.key->0, y.key->0, z.key->0);
                    if x.key == z.key {
                        lemma_text_leq_antisymmetric(x.key->0, y.key->0);
                    }
                }
            }
        }
    }
    assert forall|x: Entry, y: Entry| #[trigger] r(x, y) || #[trigger] r(y, x) by {
        if x.key == y.key {
            lemma_text_leq_total(x.path, y.path);
        } else if x.key is Some && y.key is Some {
            lemma_text_leq_total(x.key->0, y.key->0);
        }
    }
}

/// In a sequence sorted by `entry_order`, an entry without a key stands
/// before every entry with one.
pub proof fn lemma_missing_key_first(sorted: Seq<Entry>, i: int, j: int)
    requires
        sorted_by(sorted, entry_order()),
        0 <= i < sorted.len(),
        0 <= j < sorted.len(),
        sorted[i].key is None,
        sorted[j].key is Some,
    ensures
        i < j,
{
    if j < i {
        assert(entry_order()(sorted[j], sorted[i]));
    }
}

/// In a sequence sorted by `entry_order`, entries that share a key stand in
/// the lexical order of their paths.
pub proof fn lemma_ties_in_path_order(sorted: Seq<Entry>, i: int, j: int)
    requires
        sorted_by(sorted, entry_order()),
        0 <= i < j < sorted.len(),
        sorted[i].key == sorted[j].key,
    ensures
        text_leq(sorted[i].path, sorted[j].path),
{
    assert(entry_order()(sorted[i], sorted[j]));
}

} // verus!

