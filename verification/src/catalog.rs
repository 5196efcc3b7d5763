//! The tile catalog: glyphs and the connector code on each of their edges.

use vstd::prelude::*;

verus! {

/// One tile variant. `edges[d]` is the connector code that the tile shows
/// towards direction `d`, with 0 = down, 1 = left, 2 = up, 3 = right.
#[derive(Clone, Copy, Debug)]
pub struct TileDefinition {
    pub glyph: char,
    pub edges: [u8; 4],
}

/// The direction facing `d`: down and up swap, left and right swap.
pub open spec fn opposite_of(d: int) -> int {
    (d + 2) % 4
}

/// Tile `t`, looking towards `d`, shows the code that tile `n` shows back.
pub open spec fn fits(tiles: Seq<TileDefinition>, t: usize, d: int, n: usize) -> bool {
    tiles[t as int].edges[d] == tiles[n as int].edges[opposite_of(d)]
}

/// Tile `t` fits every tile of `others` across direction `d`.
pub open spec fn fits_all(tiles: Seq<TileDefinition>, t: usize, d: int, others: Set<usize>) -> bool {
    forall|n: usize| others.contains(n) ==> fits(tiles, t, d, n)
}

/// The eleven pipe tiles: four corners, two straights, four tees and the cross.
pub open spec fn pipe_catalog() -> Seq<TileDefinition> {
    seq![
        TileDefinition { glyph: '┗', edges: [1, 0, 0, 1] },
        TileDefinition { glyph: '┓', edges: [0, 1, 1, 0] },
        TileDefinition { glyph: '┏', edges: [0, 0, 1, 1] },
        TileDefinition { glyph: '┛', edges: [1, 1, 0, 0] },
        TileDefinition { glyph: '━', edges: [0, 1, 0, 1] },
        TileDefinition { glyph: '┃', edges: [1, 0, 1, 0] },
        TileDefinition { glyph: '┣', edges: [1, 0, 1, 1] },
        TileDefinition { glyph: '┫', edges: [1, 1, 1, 0] },
        TileDefinition { glyph: '┳', edges: [0, 1, 1, 1] },
        TileDefinition { glyph: '┻', edges: [1, 1, 0, 1] },
        TileDefinition { glyph: '╋', edges: [1, 1, 1, 1] },
    ]
}

/// The direction facing `d`.
pub fn opposite(d: usize) -> (r: usize)
    requires
        d < 4,
    ensures
        r == opposite_of(d as int),
        r < 4,
{
    (d + 2) % 4
}

/// Decides `fits` on a catalog held in memory.
pub fn tiles_fit(tiles: &Vec<TileDefinition>, t: usize, d: usize, n: usize) -> (r: bool)
    requires
        t < tiles.len(),
        n < tiles.len(),
        d < 4,
    ensures
        r == fits(tiles@, t, d as int, n),
{
    tiles[n].edges[opposite(d)] == tiles[t].edges[d]
}

/// Builds the pipe catalog.
pub fn pipe_tiles() -> (tiles: Vec<TileDefinition>)
    ensures
        tiles@ == pipe_catalog(),
{
    let mut tiles: Vec<TileDefinition> = Vec::new();
    tiles.push(TileDefinition { glyph: '┗', edges: [1, 0, 0, 1] });
    tiles.push(TileDefinition { glyph: '┓', edges: [0, 1, 1, 0] });
    tiles.push(TileDefinition { glyph: '┏', edges: [0, 0, 1, 1] });
    tiles.push(TileDefinition { glyph: '┛', edges: [1, 1, 0, 0] });
    tiles.push(TileDefinition { glyph: '━', edges: [0, 1, 0, 1] });
    tiles.push(TileDefinition { glyph: '┃', edges: [1, 0, 1, 0] });
    tiles.push(TileDefinition { glyph: '┣', edges: [1, 0, 1, 1] });
    tiles.push(TileDefinition { glyph: '┫', edges: [1, 1, 1, 0] });
    tiles.push(TileDefinition { glyph: '┳', edges: [0, 1, 1, 1] });
    tiles.push(TileDefinition { glyph: '┻', edges: [1, 1, 0, 1] });
    tiles.push(TileDefinition { glyph: '╋', edges: [1, 1, 1, 1] });
    assert(tiles@ =~= pipe_catalog());
    tiles
}

} // verus!
