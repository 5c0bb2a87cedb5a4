//! Small helpers on byte vectors.

use vstd::prelude::*;

verus! {

/// Appends `src` to `out`.
pub fn append(out: &mut Vec<u8>, src: &[u8])
    ensures
        final(out)@ == old(out)@ + src@,
{
    let ghost before = out@;
    let mut i: usize = 0;
    while i < src.len()
        invariant
            i <= src.len(),
            out@ == before + src@.take(i as int),
        decreases src.len() - i,
    {
        out.push(src[i]);
        i += 1;
        proof {
            assert(src@.take(i as int) =~= src@.take(i - 1).push(src@[i - 1]));
            assert(out@ =~= before + src@.take(i as int));
        }
    }
    proof {
        assert(src@.take(src.len() as int) =~= src@);
    }
}

} // verus!
