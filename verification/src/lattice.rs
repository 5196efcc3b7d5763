//! The four-connected rectangular lattice: positions are numbered row by
//! row, so position `index` sits in column `index % width` and row
//! `index / width`.

use vstd::prelude::*;
use vstd::arithmetic::div_mod::lemma_fundamental_div_mod;
use vstd::arithmetic::div_mod::lemma_fundamental_div_mod_converse;
use vstd::arithmetic::div_mod::lemma_mod_bound;
use crate::catalog::opposite_of;

verus! {

/// The position next to `index` in direction `d`, unless that would leave
/// the lattice.
pub open spec fn neighbor_at(index: usize, width: usize, height: usize, d: int) -> Option<usize> {
    let x = index % width;
    let y = index / width;
    if d == 0 && y < height - 1 {
        Some((index + width) as usize)
    } else if d == 1 && x > 0 {
        Some((index - 1) as usize)
    } else if d == 2 && y > 0 {
        Some((index - width) as usize)
    } else if d == 3 && x < width - 1 {
        Some((index + 1) as usize)
    } else {
        None
    }
}

/// The entry that direction `d` contributes to the neighbor list of `index`.
pub open spec fn neighbor_entry(index: usize, width: usize, height: usize, d: usize) -> Seq<(usize, usize)> {
    match neighbor_at(index, width, height, d as int) {
        Some(j) => seq![(d, j)],
        None => seq![],
    }
}

/// The neighbors of `index` as (direction, position) pairs, in the order
/// down, left, up, right.
pub open spec fn neighbor_seq(index: usize, width: usize, height: usize) -> Seq<(usize, usize)> {
    neighbor_entry(index, width, height, 0) + neighbor_entry(index, width, height, 1)
        + neighbor_entry(index, width, height, 2) + neighbor_entry(index, width, height, 3)
}

/// Column and row of a position inside the lattice.
pub proof fn lemma_position(index: usize, width: usize, height: usize)
    requires
        index < width * height,
    ensures
        width > 0,
        index == (index / width) * width + index % width,
        0 <= index % width < width,
        0 <= index / width < height,
{
    assert(width > 0) by (nonlinear_arith)
        requires
            index < width * height,
    ;
    let w = width as int;
    let i = index as int;
    lemma_fundamental_div_mod(i, w);
    lemma_mod_bound(i, w);
    assert((i / w) * w == w * (i / w)) by (nonlinear_arith);
    assert(0 <= i / w < height) by (nonlinear_arith)
        requires
            i == (i / w) * w + i % w,
            0 <= i % w < w,
            0 <= i < w * height,
            w > 0,
    ;
}

/// The position in column `x` of row `y`.
pub proof fn lemma_position_of(x: int, y: int, width: usize, height: usize)
    requires
        0 <= x < width,
        0 <= y < height,
    ensures
        0 <= y * width + x < width * height,
        (y * width + x) / (width as int) == y,
        (y * width + x) % (width as int) == x,
{
    let w = width as int;
    lemma_fundamental_div_mod_converse(y * w + x, w, y, x);
    assert(0 <= y * w + x < w * height) by (nonlinear_arith)
        requires
            0 <= x < w,
            0 <= y < height,
    ;
}

/// Every listed neighbor is the neighbor in its direction, and the other way
/// round.
pub proof fn lemma_neighbor_seq_contains(index: usize, width: usize, height: usize, d: usize, j: usize)
    ensures
        neighbor_seq(index, width, height).contains((d, j)) <==> d < 4 && neighbor_at(
            index,
            width,
            height,
            d as int,
        ) == Some(j),
{
    let e0 = neighbor_entry(index, width, height, 0);
    let e1 = neighbor_entry(index, width, height, 1);
    let e2 = neighbor_entry(index, width, height, 2);
    let e3 = neighbor_entry(index, width, height, 3);
    let all = neighbor_seq(index, width, height);
    if all.contains((d, j)) {
        let k = choose|k: int| 0 <= k < all.len() && all[k] == (d, j);
        assert(all[k] == (d, j));
    }
    if d < 4 && neighbor_at(index, width, height, d as int) == Some(j) {
        if d == 0 {
            assert(all[0] == (d, j));
        } else if d == 1 {
            assert(all[e0.len() as int] == (d, j));
        } else if d == 2 {
            assert(all[(e0.len() + e1.len()) as int] == (d, j));
        } else {
            assert(all[(e0.len() + e1.len() + e2.len()) as int] == (d, j));
        }
    }
}

/// Stepping down or up from a position that is not in the last or first row
/// stays inside the lattice.
pub proof fn lemma_vertical_steps(index: usize, width: usize, height: usize)
    requires
        index < width * height,
    ensures
        index / width < height - 1 ==> index + width < width * height,
        index / width > 0 ==> index >= width,
{
    lemma_position(index, width, height);
    let x = (index % width) as int;
    let y = (index / width) as int;
    if y < height - 1 {
        lemma_position_of(x, y + 1, width, height);
        assert((y + 1) * width + x == index + width) by (nonlinear_arith)
            requires
                index == y * width + x,
        ;
    }
    if y > 0 {
        assert(y * width >= width) by (nonlinear_arith)
            requires
                y >= 1,
                width >= 0,
        ;
    }
}

/// A neighbor lies inside the lattice and is another position.
pub proof fn lemma_neighbor_in_range(index: usize, width: usize, height: usize, d: int, j: usize)
    requires
        index < width * height <= usize::MAX,
        neighbor_at(index, width, height, d) == Some(j),
    ensures
        0 <= d < 4,
        j < width * height,
        j != index,
{
    lemma_position(index, width, height);
    lemma_vertical_steps(index, width, height);
    if d == 3 {
        lemma_position_of(index % width + 1, (index / width) as int, width, height);
    }
}

/// If `j` is the neighbor of `i` in direction `d`, then `i` is the neighbor
/// of `j` in the opposite direction.
pub proof fn lemma_neighbor_symmetry(i: usize, width: usize, height: usize, d: int, j: usize)
    requires
        i < width * height <= usize::MAX,
        neighbor_at(i, width, height, d) == Some(j),
    ensures
        neighbor_at(j, width, height, opposite_of(d)) == Some(i),
{
    lemma_position(i, width, height);
    let x = (i % width) as int;
    let y = (i / width) as int;
    if d == 0 {
        lemma_position_of(x, y + 1, width, height);
        assert((y + 1) * width + x == i + width) by (nonlinear_arith)
            requires
                i == y * width + x,
        ;
    } else if d == 2 {
        lemma_position_of(x, y - 1, width, height);
        assert((y - 1) * width + x == i - width) by (nonlinear_arith)
            requires
                i == y * width + x,
        ;
    } else if d == 1 {
        lemma_position_of(x - 1, y, width, height);
    } else {
        lemma_position_of(x + 1, y, width, height);
    }
}

/// The same symmetry, read off the neighbor lists.
pub proof fn lemma_neighbor_lists_symmetric(i: usize, width: usize, height: usize, d: usize, j: usize)
    requires
        i < width * height <= usize::MAX,
        neighbor_seq(i, width, height).contains((d, j)),
    ensures
        d < 4,
        neighbor_seq(j, width, height).contains((opposite_of(d as int) as usize, i)),
{
    lemma_neighbor_seq_contains(i, width, height, d, j);
    lemma_neighbor_symmetry(i, width, height, d as int, j);
    lemma_neighbor_seq_contains(j, width, height, opposite_of(d as int) as usize, i);
}

/// Lists the neighbors of `index` with the direction that leads to each.
pub fn neighbors(index: usize, width: usize, height: usize) -> (neighs: Vec<(usize, usize)>)
    requires
        index < width * height <= usize::MAX,
    ensures
        neighs@ == neighbor_seq(index, width, height),
{
    proof {
        lemma_position(index, width, height);
        lemma_vertical_steps(index, width, height);
    }
    let mut neighs: Vec<(usize, usize)> = Vec::new();
    let x: usize = index % width;
    let y: usize = index / width;
    if y < height - 1 {
        neighs.push((0, index + width));
    }
    if x > 0 {
        neighs.push((1, index - 1));
    }
    if y > 0 {
        neighs.push((2, index - width));
    }
    if x < width - 1 {
        neighs.push((3, index + 1));
    }
    assert(neighs@ =~= neighbor_seq(index, width, height));
    neighs
}

} // verus!
