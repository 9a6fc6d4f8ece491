//! Byte-string comparison.

use vstd::prelude::*;

verus! {

/// Are the two byte strings the same?
pub fn bytes_equal(s: &Vec<u8>, p: &Vec<u8>) -> (r: bool)
    ensures
        r == (s@ == p@),
{
    if s.len() != p.len() {
        proof {
            if s@ == p@ {
                assert(s@.len() == p@.len());
            }
        }
        return false;
    }
    let mut i: usize = 0;
    while i < p.len()
        invariant
            i <= p@.len(),
            s@.len() == p@.len(),
            forall|m: int| 0 <= m < i ==> s@[m] == p@[m],
        decreases p@.len() - i,
    {
        if s[i] != p[i] {
            proof {
                if s@ == p@ {
                    assert(s@[i as int] == p@[i as int]);
                }
            }
            return false;
        }
        i = i + 1;
    }
    proof {
        assert(s@ =~= p@);
    }
    true
}

} // verus!
