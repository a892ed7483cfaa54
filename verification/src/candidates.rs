//! Candidate lists for the meet-in-the-middle decoders.
//!
//! A candidate list maps a partial-syndrome byte vector to the index subsets
//! that produced it.  It is kept as a flat list of `(syndrome, subset)`
//! pairs: several subsets sharing one syndrome are simply several entries,
//! so colliding candidates are all retained.  Lists are built fresh per
//! search iteration and discarded after its merge phase.

use vstd::prelude::*;

verus! {

/// Find an entry whose key equals `key`, if any.
pub fn find_entry(m: &Vec<(Vec<u8>, Vec<usize>)>, key: &Vec<u8>) -> (r: Option<usize>)
    ensures
        r matches Some(i) ==> i < m@.len() && m@[i as int].0@ == key@,
        r is None ==> forall|i: int| 0 <= i < m@.len() ==> (#[trigger] m@[i]).0@ != key@,
{
    let mut i: usize = 0;
    while i < m.len()
        invariant
            0 <= i <= m@.len(),
            forall|j: int| 0 <= j < i ==> (#[trigger] m@[j]).0@ != key@,
        decreases m@.len() - i,
    {
        if crate::bits::bytes_eq(&m[i].0, key) {
            return Some(i);
        }
        i = i + 1;
    }
    None
}

/// Copy a stored position list.
pub fn copy_positions(a: &Vec<usize>) -> (r: Vec<usize>)
    ensures
        r@ == a@,
{
    let mut out: Vec<usize> = Vec::new();
    let mut i: usize = 0;
    while i < a.len()
        invariant
            0 <= i <= a@.len(),
            out@ == a@.take(i as int),
        decreases a@.len() - i,
    {
        proof {
            assert(a@.take(i + 1) =~= a@.take(i as int).push(a@[i as int]));
        }
        out.push(a[i]);
        i = i + 1;
    }
    proof {
        assert(a@.take(a@.len() as int) =~= a@);
    }
    out
}

} // verus!
