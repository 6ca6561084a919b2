use vstd::prelude::*;

verus! {

/// Index of the first `false` entry of `table` at or after `starting_position`,
/// or `None` when every entry from there on is `true`.
pub fn next_false(table: &Vec<bool>, starting_position: usize) -> (found: Option<usize>)
    ensures
        match found {
            Some(index) => {
                &&& starting_position <= index < table@.len()
                &&& !table@[index as int]
                &&& forall|j: int| starting_position <= j < index ==> table@[j]
            },
            None => forall|j: int| starting_position <= j < table@.len() ==> table@[j],
        },
{
    let mut index: usize = starting_position;
    while index < table.len()
        invariant
            starting_position <= index,
            forall|j: int| starting_position <= j < index && j < table@.len() ==> table@[j],
        decreases table@.len() - index,
    {
        if !table[index] {
            return Some(index);
        }
        index += 1;
    }
    None
}

} // verus!
