//! Occupancy of a rectangular tile map.
use crate::geometry::Tile;
use vstd::arithmetic::div_mod::lemma_fundamental_div_mod_converse;
use vstd::prelude::*;

verus! {

/// Which cells of a `width × height` map are blocked, stored row by row.
/// Every tile outside the map counts as blocked.
pub struct OccupancyGrid {
    width: u32,
    height: u32,
    blocked: Vec<bool>,
}

impl OccupancyGrid {
    pub closed spec fn width_spec(&self) -> nat {
        self.width as nat
    }

    pub closed spec fn height_spec(&self) -> nat {
        self.height as nat
    }

    /// One entry per cell.
    pub closed spec fn wf(&self) -> bool {
        self.blocked@.len() == self.width * self.height
    }

    pub open spec fn in_grid(&self, t: Tile) -> bool {
        t.0 < self.width_spec() && t.1 < self.height_spec()
    }

    /// Number of cells.
    pub open spec fn cell_count(&self) -> nat {
        self.width_spec() * self.height_spec()
    }

    /// Position of a cell in row-major order.
    pub open spec fn index(&self, t: Tile) -> int {
        t.1 * self.width_spec() + t.0
    }

    /// The cell at a row-major position.
    pub open spec fn tile_of(&self, i: int) -> Tile {
        ((i % (self.width_spec() as int)) as u32, (i / (self.width_spec() as int)) as u32)
    }

    /// Whether the tile cannot be entered: it lies outside the map, or its
    /// cell is occupied.
    pub closed spec fn blocked_at(&self, t: Tile) -> bool {
        !self.in_grid(t) || self.blocked@[self.index(t)]
    }

    /// The occupancy query as a predicate over all tiles.
    pub open spec fn blocked_fn(&self) -> spec_fn(Tile) -> bool {
        |t: Tile| self.blocked_at(t)
    }

    /// Tiles outside the map are blocked.
    pub proof fn lemma_outside_blocked(&self, t: Tile)
        requires
            !self.in_grid(t),
        ensures
            self.blocked_at(t),
    {
    }

    pub proof fn lemma_index(&self, t: Tile)
        requires
            self.wf(),
            self.in_grid(t),
        ensures
            0 <= self.index(t) < self.cell_count(),
            self.tile_of(self.index(t)) == t,
    {
        let w = self.width_spec() as int;
        let h = self.height_spec() as int;
        let y = t.1 as int;
        let x = t.0 as int;
        assert(y * w + x < h * w) by (nonlinear_arith)
            requires
                0 <= x < w,
                0 <= y < h,
        ;
        assert(0 <= y * w) by (nonlinear_arith)
            requires
                0 <= y,
                0 <= w,
        ;
        lemma_fundamental_div_mod_converse(y * w + x, w, y, x);
    }

    pub proof fn lemma_tile_of(&self, i: int)
        requires
            self.wf(),
            0 <= i < self.cell_count(),
        ensures
            self.in_grid(self.tile_of(i)),
            self.index(self.tile_of(i)) == i,
    {
        let w = self.width_spec() as int;
        let h = self.height_spec() as int;
        assert(w > 0) by (nonlinear_arith)
            requires
                0 <= i < w * h,
                0 <= h,
        ;
        let q = i / w;
        let r = i % w;
        assert(i == w * q + r && 0 <= r < w) by {
            vstd::arithmetic::div_mod::lemma_fundamental_div_mod(i, w);
        }
        assert(0 <= q < h) by (nonlinear_arith)
            requires
                i == w * q + r,
                0 <= r < w,
                0 <= i < w * h,
        ;
        assert(q * w == w * q) by (nonlinear_arith);
        assert(self.tile_of(i) == (r as u32, q as u32));
    }

    /// A map of the given size with every cell open; `None` where the number
    /// of cells does not fit in memory's index range.
    pub fn new(width: u32, height: u32) -> (r: Option<Self>)
        ensures
            r is None <==> width as nat * height as nat > usize::MAX,
            r matches Some(g) ==> {
                &&& g.wf()
                &&& g.width_spec() == width
                &&& g.height_spec() == height
                &&& forall|t: Tile| #[trigger] g.blocked_at(t) == !g.in_grid(t)
            },
    {
        let n = match (width as usize).checked_mul(height as usize) {
            Some(n) => n,
            None => return None,
        };
        let mut blocked: Vec<bool> = Vec::new();
        while blocked.len() < n
            invariant
                blocked@.len() <= n,
                forall|i: int| 0 <= i < blocked@.len() ==> !blocked@[i],
            decreases n - blocked@.len(),
        {
            blocked.push(false);
        }
        let g = OccupancyGrid { width, height, blocked };
        proof {
            assert forall|t: Tile| #[trigger] g.blocked_at(t) == !g.in_grid(t) by {
                if g.in_grid(t) {
                    g.lemma_index(t);
                }
            }
        }
        Some(g)
    }

    /// A map built from an enumeration of its cells, each with whether it is
    /// occupied: a cell is blocked where some entry marks it occupied. `None`
    /// where the number of cells does not fit in memory's index range.
    pub fn from_cells(width: u32, height: u32, cells: &Vec<(u32, u32, bool)>) -> (r: Option<Self>)
        ensures
            r is None <==> width as nat * height as nat > usize::MAX,
            r matches Some(g) ==> {
                &&& g.wf()
                &&& g.width_spec() == width
                &&& g.height_spec() == height
                &&& forall|t: Tile| #[trigger]
                    g.blocked_at(t) == (!g.in_grid(t) || exists|j: int|
                        0 <= j < cells@.len() && #[trigger] cells@[j] == (t.0, t.1, true))
            },
    {
        let mut g = match OccupancyGrid::new(width, height) {
            Some(g) => g,
            None => return None,
        };
        let mut i: usize = 0;
        while i < cells.len()
            invariant
                i <= cells@.len(),
                g.wf(),
                g.width_spec() == width,
                g.height_spec() == height,
                forall|t: Tile| #[trigger]
                    g.blocked_at(t) == (!g.in_grid(t) || exists|j: int|
                        0 <= j < i && #[trigger] cells@[j] == (t.0, t.1, true)),
            decreases cells@.len() - i,
        {
            let (x, y, occupied) = cells[i];
            if occupied {
                g.set_blocked((x, y), true);
            }
            proof {
                assert forall|t: Tile| #[trigger]
                    g.blocked_at(t) == (!g.in_grid(t) || exists|j: int|
                        0 <= j < i + 1 && #[trigger] cells@[j] == (t.0, t.1, true)) by {
                    if cells@[i as int] == (t.0, t.1, true) {
                        assert(0 <= i < i + 1);
                    }
                    if exists|j: int| 0 <= j < i + 1 && #[trigger] cells@[j] == (t.0, t.1, true) {
                        let j = choose|j: int| 0 <= j < i + 1 && #[trigger] cells@[j] == (t.0, t.1, true);
                        if j < i {
                            assert(0 <= j < i && cells@[j] == (t.0, t.1, true));
                        }
                    }
                }
            }
            i = i + 1;
        }
        Some(g)
    }

    pub fn width(&self) -> (r: u32)
        ensures
            r == self.width_spec(),
    {
        self.width
    }

    pub fn height(&self) -> (r: u32)
        ensures
            r == self.height_spec(),
    {
        self.height
    }

    /// Row-major position of a cell of the map.
    pub fn index_of(&self, t: Tile) -> (r: usize)
        requires
            self.wf(),
            self.in_grid(t),
        ensures
            r == self.index(t),
            r < self.cell_count(),
    {
        let n = self.blocked.len();
        proof {
            self.lemma_index(t);
            assert(t.1 * self.width_spec() <= self.index(t)) by (nonlinear_arith);
        }
        t.1 as usize * self.width as usize + t.0 as usize
    }

    /// Number of cells of the map.
    pub fn cells(&self) -> (r: usize)
        requires
            self.wf(),
        ensures
            r == self.cell_count(),
    {
        self.blocked.len()
    }

    /// The cell at a row-major position.
    pub fn tile_at(&self, i: usize) -> (r: Tile)
        requires
            self.wf(),
            i < self.cell_count(),
        ensures
            r == self.tile_of(i as int),
            self.in_grid(r),
            self.index(r) == i,
    {
        proof {
            self.lemma_tile_of(i as int);
        }
        let w = self.width as usize;
        ((i % w) as u32, (i / w) as u32)
    }

    /// Whether `t` is blocked; tiles outside the map are.
    pub fn is_blocked(&self, t: Tile) -> (r: bool)
        requires
            self.wf(),
        ensures
            r == self.blocked_at(t),
    {
        if t.0 < self.width && t.1 < self.height {
            let i = self.index_of(t);
            self.blocked[i]
        } else {
            true
        }
    }

    /// Marks a cell of the map as blocked or open; a tile outside the map is
    /// ignored.
    pub fn set_blocked(&mut self, t: Tile, blocked: bool)
        requires
            old(self).wf(),
        ensures
            final(self).wf(),
            final(self).width_spec() == old(self).width_spec(),
            final(self).height_spec() == old(self).height_spec(),
            forall|u: Tile| #[trigger]
                final(self).blocked_at(u) == if u == t && old(self).in_grid(t) {
                    blocked
                } else {
                    old(self).blocked_at(u)
                },
    {
        if t.0 < self.width && t.1 < self.height {
            let i = self.index_of(t);
            self.blocked.set(i, blocked);
            proof {
                assert forall|u: Tile| #[trigger]
                    self.blocked_at(u) == if u == t { blocked } else { old(self).blocked_at(u) } by {
                    if self.in_grid(u) && u != t {
                        self.lemma_index(u);
                        self.lemma_index(t);
                    }
                }
            }
        }
    }
}

} // verus!
