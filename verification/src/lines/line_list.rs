//! Lists of line segments.
use vstd::prelude::*;

verus! {

/// The segments of a box wireframe from corner `i`: to the corners `i + 1`,
/// `i + 2` and `i + 4` that exist. The corners are numbered by the bits of
/// their x, y and z sides.
pub open spec fn box_lines_from(i: int) -> Seq<(usize, usize)> {
    let steps = seq![1int, 2, 4].filter(|j: int| i + j < 8);
    steps.map_values(|j: int| (i as usize, (i + j) as usize))
}

/// The segments from the first `n` corners.
pub open spec fn box_lines_upto(n: nat) -> Seq<(usize, usize)>
    decreases n,
{
    if n == 0 {
        Seq::empty()
    } else {
        box_lines_upto((n - 1) as nat) + box_lines_from(n - 1)
    }
}

/// The corner pairs of the segments of a box wireframe over its eight
/// corners, corner by corner.
pub fn box_line_pairs() -> (pairs: Vec<(usize, usize)>)
    ensures
        pairs@ == box_lines_upto(8),
{
    let mut pairs: Vec<(usize, usize)> = Vec::new();
    let mut i: usize = 0;
    while i < 8
        invariant
            i <= 8,
            pairs@ == box_lines_upto(i as nat),
        decreases 8 - i,
    {
        let ghost before = pairs@;
        let steps: Vec<usize> = vec![1, 2, 4];
        let mut k: usize = 0;
        while k < 3
            invariant
                i < 8,
                steps@ == seq![1usize, 2, 4],
                k <= 3,
                pairs@ == before + seq![1int, 2, 4].take(k as int).filter(|j: int| i + j < 8).map_values(
                    |j: int| (i as usize, (i + j) as usize),
                ),
            decreases 3 - k,
        {
            let j = steps[k];
            proof {
                assert(seq![1int, 2, 4].take(k + 1) == seq![1int, 2, 4].take(k as int).push(j as int));
                seq![1int, 2, 4].take(k as int).lemma_filter_push(j as int, |j: int| i + j < 8);
            }
            if i + j < 8 {
                pairs.push((i, i + j));
            }
            proof {
                assert(pairs@ =~= before + seq![1int, 2, 4].take(k + 1).filter(|j: int| i + j < 8).map_values(
                    |j: int| (i as usize, (i + j) as usize),
                ));
            }
            k = k + 1;
        }
        proof {
            assert(seq![1int, 2, 4].take(3) == seq![1int, 2, 4]);
        }
        i = i + 1;
    }
    pairs
}

} // verus!
