//! Byte-scanning support: locating a run of eight consecutive zero bytes in
//! a payload.

use vstd::prelude::*;

verus! {

/// Eight consecutive zero bytes stand at position `i` of `data`.
pub open spec fn zero_run_at(data: Seq<u8>, i: int) -> bool {
    &&& 0 <= i
    &&& i + 8 <= data.len()
    &&& forall|j: int| i <= j < i + 8 ==> data[j] == 0
}

/// The position of the first run of eight consecutive zero bytes in `data`,
/// or `None` when no such run exists anywhere.
pub fn find_eight_consecutive_nulls(data: &Vec<u8>) -> (found: Option<usize>)
    ensures
        match found {
            Some(start) => {
                &&& zero_run_at(data@, start as int)
                &&& forall|j: int| 0 <= j < start ==> !zero_run_at(data@, j)
            },
            None => forall|j: int| !zero_run_at(data@, j),
        },
{
    let mut count: usize = 0;
    let mut start_index: Option<usize> = None;
    let mut index: usize = 0;
    while index < data.len()
        invariant
            index <= data@.len(),
            count < 8,
            count <= index,
            forall|j: int| index - count <= j < index ==> data@[j] == 0,
            count < index ==> data@[index - count - 1] != 0,
            count == 0 ==> start_index is None,
            count > 0 ==> start_index == Some((index - count) as usize),
            forall|j: int| 0 <= j && j + 8 <= index ==> !zero_run_at(data@, j),
        decreases data@.len() - index,
    {
        let byte = data[index];
        if byte == 0 {
            if count == 0 {
                start_index = Some(index);
            }
            count = count + 1;
            if count >= 8 {
                proof {
                    assert(zero_run_at(data@, index - 7));
                }
                return start_index;
            }
        } else {
            count = 0;
            start_index = None;
        }
        index = index + 1;
    }
    None
}

} // verus!
