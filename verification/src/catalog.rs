use vstd::prelude::*;

verus! {

/// Looks a bridge up by its identifier. The catalogue is given by the
/// identifiers of its bridges, in catalogue order; the result is the
/// position of the first bridge whose identifier is `bridge_id`.
pub fn get_bridge(bridge_ids: &Vec<String>, bridge_id: &str) -> (res: Option<usize>)
    ensures
        match res {
            Some(i) => {
                &&& i < bridge_ids.len()
                &&& bridge_ids[i as int]@ == bridge_id@
                &&& forall|j: int| 0 <= j < i ==> bridge_ids[j]@ != bridge_id@
            },
            None => forall|j: int| 0 <= j < bridge_ids.len() ==> bridge_ids[j]@ != bridge_id@,
        },
{
    let wanted: String = bridge_id.to_owned();
    let mut i: usize = 0;
    while i < bridge_ids.len()
        invariant
            i <= bridge_ids.len(),
            wanted@ == bridge_id@,
            forall|j: int| 0 <= j < i ==> bridge_ids[j]@ != bridge_id@,
        decreases bridge_ids.len() - i,
    {
        if bridge_ids[i] == wanted {
            return Some(i);
        }
        i = i + 1;
    }
    None
}

} // verus!
