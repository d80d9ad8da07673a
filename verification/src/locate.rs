use vstd::prelude::*;
use crate::chars::ints_of;

verus! {

/// The index of the first sentence whose end boundary lies strictly
/// beyond `pos`, probing the ascending boundaries from `i` on; a
/// position beyond every boundary falls back to index 0.
pub open spec fn locate_from(bounds: Seq<int>, pos: int, i: int) -> int
    decreases bounds.len() - i,
{
    if i >= bounds.len() {
        0
    } else if pos < bounds[i] {
        i
    } else {
        locate_from(bounds, pos, i + 1)
    }
}

pub open spec fn locate_spec(bounds: Seq<int>, pos: int) -> int {
    locate_from(bounds, pos, 0)
}

pub proof fn lemma_locate_from_range(bounds: Seq<int>, pos: int, i: int)
    requires
        0 <= i,
    ensures
        0 <= locate_from(bounds, pos, i),
        bounds.len() > 0 ==> locate_from(bounds, pos, i) < bounds.len(),
    decreases bounds.len() - i,
{
    if i >= bounds.len() {
    } else if pos < bounds[i] {
    } else {
        lemma_locate_from_range(bounds, pos, i + 1);
    }
}

/// Returns the index of the enclosing sentence for a token starting at
/// character `pos`: the first boundary strictly greater than `pos`, or
/// 0 where no boundary is.
pub fn locate_sentence(bounds: &Vec<usize>, pos: usize) -> (idx: usize)
    ensures
        idx as int == locate_spec(ints_of(bounds@), pos as int),
{
    let n = bounds.len();
    let mut i: usize = 0;
    while i < n
        invariant
            n == bounds@.len(),
            i <= n,
            locate_spec(ints_of(bounds@), pos as int) == locate_from(
                ints_of(bounds@),
                pos as int,
                i as int,
            ),
        decreases n - i,
    {
        if pos < bounds[i] {
            return i;
        }
        i += 1;
    }
    0
}

} // verus!
