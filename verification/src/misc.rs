use vstd::prelude::*;

verus! {

/// Where a step by `d` lands from `(i, j)`, with wrapping arithmetic so
/// that offsets may be encoded as huge values acting like negative ones.
pub open spec fn neighbor_of(i: usize, j: usize, d: (usize, usize)) -> (usize, usize) {
    (
        vstd::wrapping::usize_specs::wrapping_add(i, d.0),
        vstd::wrapping::usize_specs::wrapping_add(j, d.1),
    )
}

/// The in-bounds neighbors of `(i, j)` reached by `dirs`, in direction
/// order.
pub open spec fn grids_spec(
    i: usize,
    j: usize,
    height: usize,
    width: usize,
    dirs: Seq<(usize, usize)>,
) -> Seq<(usize, usize)>
    decreases dirs.len(),
{
    if dirs.len() == 0 {
        Seq::empty()
    } else {
        let rest = grids_spec(i, j, height, width, dirs.drop_last());
        let c = neighbor_of(i, j, dirs.last());
        if c.0 < height && c.1 < width {
            rest.push(c)
        } else {
            rest
        }
    }
}

/// The cells adjacent to `(i, j)` through the given offsets that land
/// inside a `height` by `width` grid, in offset order.
pub fn adjacent_grids(
    i: usize,
    j: usize,
    height: usize,
    width: usize,
    directions: &[(usize, usize)],
) -> (res: Vec<(usize, usize)>)
    requires
        height < usize::MAX,
        width < usize::MAX,
    ensures
        res@ == grids_spec(i, j, height, width, directions@),
{
    let mut res: Vec<(usize, usize)> = Vec::new();
    let mut k: usize = 0;
    while k < directions.len()
        invariant
            k <= directions@.len(),
            res@ == grids_spec(i, j, height, width, directions@.subrange(0, k as int)),
        decreases directions@.len() - k,
    {
        let (di, dj) = directions[k];
        let ni = i.wrapping_add(di);
        let nj = j.wrapping_add(dj);
        if ni < height && nj < width {
            res.push((ni, nj));
        }
        proof {
            assert(directions@.subrange(0, k + 1).drop_last() =~= directions@.subrange(
                0,
                k as int,
            ));
            assert(directions@.subrange(0, k + 1).last() == directions@[k as int]);
        }
        k += 1;
    }
    proof {
        assert(directions@.subrange(0, directions@.len() as int) =~= directions@);
    }
    res
}

/// The four offsets: right, down, left, up (the latter two as wrapping
/// "minus one").
pub open spec fn dirs4() -> Seq<(usize, usize)> {
    seq![(0usize, 1usize), (1usize, 0usize), (0usize, usize::MAX), (usize::MAX, 0usize)]
}

/// The in-bounds orthogonal neighbors of `(i, j)`.
pub fn adjacent_grids_4(i: usize, j: usize, height: usize, width: usize) -> (res: Vec<
    (usize, usize),
>)
    requires
        height < usize::MAX,
        width < usize::MAX,
    ensures
        res@ == grids_spec(i, j, height, width, dirs4()),
{
    let dirs: [(usize, usize); 4] = [(0, 1), (1, 0), (0, usize::MAX), (usize::MAX, 0)];
    let res = adjacent_grids(i, j, height, width, &dirs);
    proof {
        assert(dirs@ =~= dirs4());
    }
    res
}

/// The eight offsets, clockwise from right.
pub open spec fn dirs8() -> Seq<(usize, usize)> {
    seq![
        (0usize, 1usize),
        (1usize, 1usize),
        (1usize, 0usize),
        (1usize, usize::MAX),
        (0usize, usize::MAX),
        (usize::MAX, usize::MAX),
        (usize::MAX, 0usize),
        (usize::MAX, 1usize),
    ]
}

/// The in-bounds neighbors of `(i, j)`, diagonals included.
pub fn adjacent_grids_8(i: usize, j: usize, height: usize, width: usize) -> (res: Vec<
    (usize, usize),
>)
    requires
        height < usize::MAX,
        width < usize::MAX,
    ensures
        res@ == grids_spec(i, j, height, width, dirs8()),
{
    let dirs: [(usize, usize); 8] = [
        (0, 1),
        (1, 1),
        (1, 0),
        (1, usize::MAX),
        (0, usize::MAX),
        (usize::MAX, usize::MAX),
        (usize::MAX, 0),
        (usize::MAX, 1),
    ];
    let res = adjacent_grids(i, j, height, width, &dirs);
    proof {
        assert(dirs@ =~= dirs8());
    }
    res
}

} // verus!
