//! Selecting the latest versioned asset index among the files of the
//! indexes directory: numeric versions compare by value, non-numeric names
//! rank below every numeric one and among themselves by reverse
//! lexicographic filename order.
use vstd::prelude::*;

use crate::text::{
    has_suffix, lex_lt, lemma_lex_lt_transitive, parse_u32, spec_parse_u32, str_ends_with, str_lt,
    substring,
};

verus! {

/// A filename whose extension is exactly `json`: it ends in `.json` and at
/// least one character precedes that suffix (a bare `.json` is a hidden
/// file without an extension).
pub open spec fn is_index_file_name(n: Seq<char>) -> bool {
    n.len() > ".json"@.len() && has_suffix(n, ".json"@)
}

pub fn is_index_file(n: &str) -> (r: bool)
    ensures
        r == is_index_file_name(n@),
{
    proof {
        reveal_strlit(".json");
    }
    n.unicode_len() > 5 && str_ends_with(n, ".json")
}

/// The numeric version an index filename carries, if its base (the filename
/// minus `.json`) parses as a non-negative integer.
pub open spec fn index_version(n: Seq<char>) -> Option<u32> {
    if has_suffix(n, ".json"@) {
        spec_parse_u32(n.take(n.len() - ".json"@.len()))
    } else {
        None
    }
}

pub fn parse_index_version(n: &str) -> (r: Option<u32>)
    ensures
        r == index_version(n@),
{
    proof {
        reveal_strlit(".json");
    }
    if str_ends_with(n, ".json") {
        let len = n.unicode_len();
        let base = substring(n, 0, len - 5);
        proof {
            assert(base@ =~= n@.take(n@.len() - ".json"@.len()));
        }
        parse_u32(base.as_str())
    } else {
        None
    }
}

/// `a` ranks strictly above `b` in the latest-first order on index
/// filenames: numeric versions by value descending; any numeric version
/// above every non-numeric name; non-numeric names by reverse lexicographic
/// filename comparison.
pub open spec fn ranks_above(a: Seq<char>, b: Seq<char>) -> bool {
    match (index_version(a), index_version(b)) {
        (Some(x), Some(y)) => x > y,
        (Some(x), None) => true,
        (None, Some(y)) => false,
        (None, None) => lex_lt(b, a),
    }
}

pub proof fn lemma_ranks_above_irreflexive(a: Seq<char>)
    ensures
        !ranks_above(a, a),
{
    if index_version(a) is None {
        crate::text::lemma_lex_lt_irreflexive(a);
    }
}

pub proof fn lemma_ranks_above_transitive(a: Seq<char>, b: Seq<char>, c: Seq<char>)
    requires
        ranks_above(a, b),
        ranks_above(b, c),
    ensures
        ranks_above(a, c),
{
    if index_version(a) is None {
        lemma_lex_lt_transitive(c, b, a);
    }
}

/// Compare two index filenames under the latest-first order.
pub fn index_ranks_above(a: &str, b: &str) -> (r: bool)
    ensures
        r == ranks_above(a@, b@),
{
    let av = parse_index_version(a);
    let bv = parse_index_version(b);
    match (av, bv) {
        (Some(x), Some(y)) => x > y,
        (Some(_), None) => true,
        (None, Some(_)) => false,
        (None, None) => str_lt(b, a),
    }
}

/// From the filenames found in the indexes directory, select the latest
/// asset index file: among the names with the `json` extension, one that no
/// other ranks above. Returns nothing when no name qualifies.
pub fn find_latest_index(names: &Vec<String>) -> (r: Option<String>)
    ensures
        match r {
            Some(s) => {
                &&& exists|i: int| 0 <= i < names@.len() && #[trigger] names@[i]@ == s@
                &&& is_index_file_name(s@)
                &&& forall|j: int|
                    0 <= j < names@.len() && is_index_file_name(#[trigger] names@[j]@)
                        ==> !ranks_above(names@[j]@, s@)
            },
            None => forall|j: int|
                0 <= j < names@.len() ==> !is_index_file_name(#[trigger] names@[j]@),
        },
{
    let mut best: Option<usize> = None;
    let mut k: usize = 0;
    while k < names.len()
        invariant
            k <= names@.len(),
            match best {
                Some(b) => {
                    &&& b < k
                    &&& is_index_file_name(names@[b as int]@)
                    &&& forall|j: int|
                        0 <= j < k && is_index_file_name(#[trigger] names@[j]@)
                            ==> !ranks_above(names@[j]@, names@[b as int]@)
                },
                None => forall|j: int|
                    0 <= j < k ==> !is_index_file_name(#[trigger] names@[j]@),
            },
        decreases names@.len() - k,
    {
        if is_index_file(names[k].as_str()) {
            match best {
                None => {
                    best = Some(k);
                    proof {
                        lemma_ranks_above_irreflexive(names@[k as int]@);
                    }
                }
                Some(b) => {
                    if index_ranks_above(names[k].as_str(), names[b].as_str()) {
                        proof {
                            assert forall|j: int|
                                0 <= j < k + 1 && is_index_file_name(#[trigger] names@[j]@)
                                    implies !ranks_above(names@[j]@, names@[k as int]@) by {
                                if j == k {
                                    lemma_ranks_above_irreflexive(names@[k as int]@);
                                } else if ranks_above(names@[j]@, names@[k as int]@) {
                                    lemma_ranks_above_transitive(
                                        names@[j]@,
                                        names@[k as int]@,
                                        names@[b as int]@,
                                    );
                                }
                            }
                        }
                        best = Some(k);
                    }
                }
            }
        }
        k = k + 1;
    }
    match best {
        Some(b) => Some(names[b].clone()),
        None => None,
    }
}

} // verus!
