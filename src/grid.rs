//! The decoded tile grid of a room, and boolean masks over grids.
use vstd::prelude::*;
use crate::tile::{Rgb, Tile, decoded, decode_pixel};

verus! {

/// Largest width or height of a room, in cells.
pub const MAX_SIDE: usize = 65535;

/// Position of cell `(x, y)` in a row-major grid of the given width.
pub open spec fn cell_index(width: int, x: int, y: int) -> int {
    y * width + x
}

/// Row-major indices of in-bounds cells are in range and distinct.
pub proof fn lemma_cell_index(width: int, height: int, x: int, y: int)
    requires
        0 <= x < width,
        0 <= y < height,
    ensures
        0 <= cell_index(width, x, y) < width * height,
        cell_index(width, x, y) + 1 <= width * height,
{
    assert(0 <= y * width + x < width * height) by (nonlinear_arith)
        requires
            0 <= x < width,
            0 <= y < height,
    ;
}

/// Distinct in-bounds cells have distinct row-major indices.
pub proof fn lemma_cell_index_injective(width: int, x1: int, y1: int, x2: int, y2: int)
    requires
        0 <= x1 < width,
        0 <= x2 < width,
        0 <= y1,
        0 <= y2,
        cell_index(width, x1, y1) == cell_index(width, x2, y2),
    ensures
        x1 == x2,
        y1 == y2,
{
    assert(y1 == y2) by (nonlinear_arith)
        requires
            0 <= x1 < width,
            0 <= x2 < width,
            0 <= y1,
            0 <= y2,
            y1 * width + x1 == y2 * width + x2,
    ;
}

/// A room decoded into tiles, stored row by row.
#[derive(Clone, Debug)]
pub struct TileGrid {
    pub width: usize,
    pub height: usize,
    pub tiles: Vec<Tile>,
}

impl TileGrid {
    /// Dimensions fit and every cell holds a tile.
    pub open spec fn wf(&self) -> bool {
        &&& self.width <= MAX_SIDE
        &&& self.height <= MAX_SIDE
        &&& self.tiles.len() == self.width * self.height
    }

    pub open spec fn in_bounds(&self, x: int, y: int) -> bool {
        0 <= x < self.width && 0 <= y < self.height
    }

    /// The tile at `(x, y)`; cells beyond the room's edge are outside.
    pub open spec fn at(&self, x: int, y: int) -> Tile {
        if self.in_bounds(x, y) {
            self.tiles@[cell_index(self.width as int, x, y)]
        } else {
            Tile::Outside
        }
    }

    /// Decodes a room image given row by row. A pixel that selects no tile
    /// becomes `Outside`; a hallway pixel takes its bucket from its red
    /// channel. Fails when the pixel count does not match.
    pub fn from_pixels(width: u16, height: u16, pixels: &Vec<Rgb>) -> (r: Option<TileGrid>)
        ensures
            r is Some <==> pixels.len() == width as int * height as int,
            r matches Some(g) ==> {
                &&& g.wf()
                &&& g.width == width
                &&& g.height == height
                &&& forall|i: int| 0 <= i < pixels.len() ==> #[trigger] g.tiles@[i] == decoded(pixels@[i])
            },
    {
        let w = width as usize;
        let h = height as usize;
        assert(w * h <= 65535 * 65535) by (nonlinear_arith)
            requires
                w <= 65535,
                h <= 65535,
        ;
        if pixels.len() != w * h {
            return None;
        }
        let mut tiles: Vec<Tile> = Vec::new();
        let mut i: usize = 0;
        while i < pixels.len()
            invariant
                i <= pixels.len(),
                tiles.len() == i,
                forall|j: int| 0 <= j < i ==> #[trigger] tiles@[j] == decoded(pixels@[j]),
            decreases pixels.len() - i,
        {
            tiles.push(decode_pixel(pixels[i]));
            i = i + 1;
        }
        Some(TileGrid { width: w, height: h, tiles })
    }

    /// The tile at `(x, y)`, `Outside` beyond the edge.
    pub fn tile_at(&self, x: i64, y: i64) -> (r: Tile)
        requires
            self.wf(),
        ensures
            r == self.at(x as int, y as int),
    {
        if 0 <= x && x < self.width as i64 && 0 <= y && y < self.height as i64 {
            proof {
                lemma_cell_index(self.width as int, self.height as int, x as int, y as int);
            }
            self.tiles[(y as usize) * self.width + (x as usize)]
        } else {
            Tile::Outside
        }
    }
}

/// Number of unset entries, the measure that bounds every flood fill.
pub open spec fn unset_count(s: Seq<bool>) -> nat
    decreases s.len(),
{
    if s.len() == 0 {
        0
    } else {
        unset_count(s.drop_last()) + (if s.last() {
            0nat
        } else {
            1nat
        })
    }
}

/// Setting an unset entry lowers the count by one.
pub proof fn lemma_unset_count_set(s: Seq<bool>, i: int)
    requires
        0 <= i < s.len(),
        !s[i],
    ensures
        unset_count(s.update(i, true)) + 1 == unset_count(s),
    decreases s.len(),
{
    let t = s.update(i, true);
    if i == s.len() - 1 {
        assert(t.drop_last() =~= s.drop_last());
    } else {
        assert(t.drop_last() =~= s.drop_last().update(i, true));
        lemma_unset_count_set(s.drop_last(), i);
    }
}

/// A set of cells of a grid, one flag per cell, row by row.
#[derive(Clone, Debug)]
pub struct Mask {
    pub width: usize,
    pub height: usize,
    pub bits: Vec<bool>,
}

impl Mask {
    pub open spec fn wf(&self) -> bool {
        &&& self.width <= MAX_SIDE
        &&& self.height <= MAX_SIDE
        &&& self.bits.len() == self.width * self.height
    }

    pub open spec fn in_bounds(&self, x: int, y: int) -> bool {
        0 <= x < self.width && 0 <= y < self.height
    }

    /// The mask holds `(x, y)`; it never holds a cell beyond the edge.
    pub open spec fn has(&self, x: int, y: int) -> bool {
        self.in_bounds(x, y) && self.bits@[cell_index(self.width as int, x, y)]
    }

    /// The mask holds cell `c`.
    pub open spec fn holds(&self, c: (usize, usize)) -> bool {
        self.has(c.0 as int, c.1 as int)
    }

    /// An empty mask of the given size.
    pub fn empty(width: usize, height: usize) -> (r: Mask)
        requires
            width <= MAX_SIDE,
            height <= MAX_SIDE,
        ensures
            r.wf(),
            r.width == width,
            r.height == height,
            forall|x: int, y: int| !r.has(x, y),
    {
        assert(width * height <= 65535 * 65535) by (nonlinear_arith)
            requires
                width <= 65535,
                height <= 65535,
        ;
        let n = width * height;
        let mut bits: Vec<bool> = Vec::new();
        let mut i: usize = 0;
        while i < n
            invariant
                i <= n,
                bits.len() == i,
                forall|j: int| 0 <= j < i ==> !#[trigger] bits@[j],
            decreases n - i,
        {
            bits.push(false);
            i = i + 1;
        }
        let r = Mask { width, height, bits };
        assert forall|x: int, y: int| !r.has(x, y) by {
            if r.in_bounds(x, y) {
                lemma_cell_index(width as int, height as int, x, y);
            }
        }
        r
    }

    /// Whether the mask holds `(x, y)`.
    pub fn get(&self, x: usize, y: usize) -> (r: bool)
        requires
            self.wf(),
            x < self.width,
            y < self.height,
        ensures
            r == self.has(x as int, y as int),
    {
        proof {
            lemma_cell_index(self.width as int, self.height as int, x as int, y as int);
        }
        self.bits[y * self.width + x]
    }

    /// Adds `(x, y)` to the mask.
    pub fn insert(&mut self, x: usize, y: usize)
        requires
            old(self).wf(),
            x < old(self).width,
            y < old(self).height,
        ensures
            final(self).wf(),
            final(self).width == old(self).width,
            final(self).height == old(self).height,
            forall|a: int, b: int|
                #[trigger] final(self).has(a, b) == (old(self).has(a, b) || (a == x && b == y)),
            !old(self).has(x as int, y as int) ==> unset_count(final(self).bits@) + 1 == unset_count(
                old(self).bits@,
            ),
    {
        proof {
            lemma_cell_index(self.width as int, self.height as int, x as int, y as int);
        }
        let i = y * self.width + x;
        proof {
            if !self.bits@[i as int] {
                lemma_unset_count_set(self.bits@, i as int);
            }
        }
        self.bits.set(i, true);
        proof {
            assert forall|a: int, b: int|
                #[trigger] self.has(a, b) == (old(self).has(a, b) || (a == x && b == y)) by {
                if self.in_bounds(a, b) {
                    lemma_cell_index(self.width as int, self.height as int, a, b);
                    if cell_index(self.width as int, a, b) == i {
                        lemma_cell_index_injective(self.width as int, a, b, x as int, y as int);
                    }
                }
            }
        }
    }
}

/// The mask of the cells whose tile satisfies the predicate of `kind`.
pub open spec fn tile_mask_spec(g: TileGrid, kind: TileKind, m: Mask) -> bool {
    &&& m.wf()
    &&& m.width == g.width
    &&& m.height == g.height
    &&& forall|x: int, y: int|
        #![trigger m.has(x, y)]
        m.has(x, y) == (g.in_bounds(x, y) && kind.holds(g.at(x, y)))
}

/// Families of tiles that a flood fill can grow over.
#[derive(Clone, Copy, Debug, PartialEq, Eq, Structural)]
pub enum TileKind {
    Hallway,
    Zipline,
    Chain,
}

impl TileKind {
    pub open spec fn holds(self, t: Tile) -> bool {
        match self {
            TileKind::Hallway => t is Hallway,
            TileKind::Zipline => t == Tile::Zipline || t == Tile::ZiplineOverWell,
            TileKind::Chain => t == Tile::Chain,
        }
    }

    /// Whether `t` belongs to this family.
    pub fn contains(self, t: Tile) -> (r: bool)
        ensures
            r == self.holds(t),
    {
        match self {
            TileKind::Hallway => matches!(t, Tile::Hallway(_)),
            TileKind::Zipline => matches!(t, Tile::Zipline | Tile::ZiplineOverWell),
            TileKind::Chain => matches!(t, Tile::Chain),
        }
    }
}

/// The mask of the cells of `g` whose tile belongs to `kind`.
pub fn tile_mask(g: &TileGrid, kind: TileKind) -> (m: Mask)
    requires
        g.wf(),
    ensures
        tile_mask_spec(*g, kind, m),
{
    let mut m = Mask::empty(g.width, g.height);
    let mut y: usize = 0;
    while y < g.height
        invariant
            g.wf(),
            m.wf(),
            m.width == g.width,
            m.height == g.height,
            y <= g.height,
            forall|a: int, b: int|
                #![trigger m.has(a, b)]
                m.has(a, b) == (g.in_bounds(a, b) && b < y && kind.holds(g.at(a, b))),
        decreases g.height - y,
    {
        let mut x: usize = 0;
        while x < g.width
            invariant
                g.wf(),
                m.wf(),
                m.width == g.width,
                m.height == g.height,
                y < g.height,
                x <= g.width,
                forall|a: int, b: int|
                    #![trigger m.has(a, b)]
                    m.has(a, b) == (g.in_bounds(a, b) && (b < y || (b == y && a < x)) && kind.holds(
                        g.at(a, b),
                    )),
            decreases g.width - x,
        {
            let t = g.tile_at(x as i64, y as i64);
            if kind.contains(t) {
                m.insert(x, y);
            }
            x = x + 1;
        }
        y = y + 1;
    }
    m
}

} // verus!
