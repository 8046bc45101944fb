//! Diagnostic paths: one allocation per visited child, no payload copies.

use vstd::prelude::*;
use vstd::string::StringExecFns;

use crate::text::decimal;
use crate::text::push_decimal;

verus! {

/// Path of the child `key` below `parent`; the root has the empty path.
pub open spec fn child_key_spec(parent: Seq<char>, key: Seq<char>) -> Seq<char> {
    if parent.len() == 0 { key } else { parent + seq!['.'] + key }
}

/// Path of the element at `index` below `parent`.
pub open spec fn child_index_spec(parent: Seq<char>, index: nat) -> Seq<char> {
    parent + seq!['['] + decimal(index) + seq![']']
}

/// Path reached from `parent` by descending through `segments`.
pub open spec fn descend(parent: Seq<char>, segments: Seq<Seq<char>>) -> Seq<char>
    decreases segments.len(),
{
    if segments.len() == 0 {
        parent
    } else {
        child_key_spec(descend(parent, segments.drop_last()), segments.last())
    }
}

/// Joins a key below a parent path with a dot, or returns the key at the root.
pub fn child_key(parent: &str, key: &str) -> (path: String)
    ensures
        path@ == child_key_spec(parent@, key@),
{
    if parent.is_empty() {
        return key.to_owned();
    }
    let mut result = parent.to_owned();
    let dot = ".";
    proof { reveal_strlit("."); }
    result.append(dot);
    result.append(key);
    assert(result@ =~= child_key_spec(parent@, key@));
    result
}

/// Appends `[index]` to a parent path.
pub fn child_index(parent: &str, index: usize) -> (path: String)
    ensures
        path@ == child_index_spec(parent@, index as nat),
{
    let mut result = parent.to_owned();
    proof { reveal_strlit("["); reveal_strlit("]"); }
    result.append("[");
    push_decimal(&mut result, index);
    result.append("]");
    assert(result@ =~= child_index_spec(parent@, index as nat));
    result
}

} // verus!
