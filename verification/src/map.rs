//! The grid of tiles that the decision engine reads.
//!
//! A `Grid` stores one `Land` per grid cell together with an accessibility
//! flag (whether the tile is visible to this player).  Tiles are addressed
//! by `Pos` (row, column); internally they live in one row-major vector.

use vstd::prelude::*;
use vstd::arithmetic::div_mod::{lemma_fundamental_div_mod, lemma_fundamental_div_mod_converse};
use vstd::arithmetic::mul::lemma_mul_inequality;

verus! {

/// Largest number of tiles a map may hold; keeps all search arithmetic small.
pub const MAX_TILES: usize = 4096;

/// Largest army amount a live tile may carry.
pub const MAX_AMOUNT: i64 = 1000000;

/// What kind of tile a cell is.  `Unknown` and `UnknownCity` are
/// fog-of-war placeholders.
#[derive(Clone, Copy, PartialEq, Eq, Structural, Debug)]
pub enum LandType {
    Unknown,
    UnknownCity,
    Land,
    City,
    General,
}

/// One tile: its kind, owning color (0 = neutral) and army amount.
#[derive(Clone, Copy, PartialEq, Eq, Structural, Debug)]
pub struct Land {
    pub kind: LandType,
    pub color: u8,
    pub amount: i64,
}

/// A grid coordinate; stable for the lifetime of a game.
#[derive(Clone, Copy, PartialEq, Eq, Structural, Debug)]
pub struct Pos {
    pub row: usize,
    pub col: usize,
}

/// The map snapshot: dimensions, tiles in row-major order, and a
/// per-tile accessibility flag.
pub struct Grid {
    width: usize,
    height: usize,
    tiles: Vec<Land>,
    access: Vec<bool>,
}

impl Grid {
    pub closed spec fn spec_width(self) -> int {
        self.width as int
    }

    pub closed spec fn spec_height(self) -> int {
        self.height as int
    }

    pub closed spec fn spec_len(self) -> int {
        self.tiles.len() as int
    }

    /// Internal consistency: row-major layout, bounded size, bounded amounts.
    pub closed spec fn wf(self) -> bool {
        &&& self.tiles.len() == self.width * self.height
        &&& self.access.len() == self.tiles.len()
        &&& self.tiles.len() <= MAX_TILES
        &&& forall|i: int|
            0 <= i < self.tiles.len() ==> 0 <= (#[trigger] self.tiles[i]).amount <= MAX_AMOUNT
    }

    /// Whether `p` addresses a cell of this map.
    pub open spec fn contains(self, p: Pos) -> bool {
        p.row < self.spec_height() && p.col < self.spec_width()
    }

    /// Row-major index of a position.
    pub closed spec fn idx_of(self, p: Pos) -> int {
        p.row * self.spec_width() + p.col
    }

    /// The tile stored at `p`.
    pub closed spec fn tile_at(self, p: Pos) -> Land {
        self.tiles[self.idx_of(p)]
    }

    /// Whether the tile at `p` is visible to this player.
    pub closed spec fn is_accessible(self, p: Pos) -> bool {
        self.access[self.idx_of(p)]
    }

    /// The tile with row-major index `i`.
    pub closed spec fn spec_tile_idx(self, i: int) -> Land {
        self.tiles[i]
    }

    /// The position whose row-major index is `i`.
    pub closed spec fn spec_pos_at(self, i: int) -> Pos {
        Pos { row: (i / self.spec_width()) as usize, col: (i % self.spec_width()) as usize }
    }

    pub proof fn lemma_wf_bounds(self)
        requires
            self.wf(),
        ensures
            0 <= self.spec_len() <= MAX_TILES,
            forall|p: Pos|
                self.contains(p) ==> 0 <= (#[trigger] self.tile_at(p)).amount <= MAX_AMOUNT,
    {
        assert forall|p: Pos| self.contains(p) implies 0 <= (#[trigger] self.tile_at(p)).amount
            <= MAX_AMOUNT by {
            self.lemma_idx_bounds(p);
        }
    }

    pub proof fn lemma_idx_bounds(self, p: Pos)
        requires
            self.wf(),
            self.contains(p),
        ensures
            0 <= self.idx_of(p) < self.spec_len(),
    {
        assert(p.row * self.spec_width() + p.col < self.spec_width() * self.spec_height())
            by (nonlinear_arith)
            requires
                p.row < self.spec_height(),
                p.col < self.spec_width(),
        ;
    }

    pub proof fn lemma_pos_at_roundtrip(self, p: Pos)
        requires
            self.wf(),
            self.contains(p),
        ensures
            self.spec_pos_at(self.idx_of(p)) == p,
    {
        let w = self.spec_width();
        let i = self.idx_of(p);
        lemma_fundamental_div_mod_converse(i, w, p.row as int, p.col as int);
    }

    pub proof fn lemma_pos_at_contained(self, i: int)
        requires
            self.wf(),
            0 <= i < self.spec_len(),
        ensures
            self.contains(self.spec_pos_at(i)),
            self.idx_of(self.spec_pos_at(i)) == i,
            self.tile_at(self.spec_pos_at(i)) == self.spec_tile_idx(i),
    {
        let w = self.spec_width();
        let h = self.spec_height();
        assert(w * h == self.spec_len());
        assert(w >= 1) by (nonlinear_arith)
            requires
                w * h > i,
                i >= 0,
                w >= 0,
                h >= 0,
        ;
        lemma_fundamental_div_mod(i, w);
        assert(0 <= i % w < w);
        assert(i / w >= 0) by (nonlinear_arith)
            requires
                i == w * (i / w) + i % w,
                0 <= i % w < w,
                i >= 0,
                w >= 1,
        ;
        assert(i / w < h) by {
            if i / w >= h {
                lemma_mul_inequality(h, i / w, w);
                assert(w * (i / w) >= w * h) by (nonlinear_arith)
                    requires
                        h * w <= (i / w) * w,
                ;
            }
        }
        assert(self.idx_of(self.spec_pos_at(i)) == (i / w) * w + i % w);
        assert(w * (i / w) == (i / w) * w) by (nonlinear_arith);
    }

    /// An empty map with no tiles at all.
    pub fn new() -> (m: Grid)
        ensures
            m.wf(),
            m.spec_width() == 0,
            m.spec_height() == 0,
            m.spec_len() == 0,
    {
        Grid { width: 0, height: 0, tiles: Vec::new(), access: Vec::new() }
    }

    /// A `width x height` map of accessible neutral plain land with no army.
    pub fn grid(width: usize, height: usize) -> (m: Grid)
        requires
            width * height <= MAX_TILES,
        ensures
            m.wf(),
            m.spec_width() == width,
            m.spec_height() == height,
            m.spec_len() == width * height,
            forall|p: Pos|
                m.contains(p) ==> #[trigger] m.tile_at(p) == (Land {
                    kind: LandType::Land,
                    color: 0u8,
                    amount: 0i64,
                }),
            forall|p: Pos| m.contains(p) ==> #[trigger] m.is_accessible(p),
    {
        let n = width * height;
        let mut tiles: Vec<Land> = Vec::new();
        let mut access: Vec<bool> = Vec::new();
        let mut i: usize = 0;
        while i < n
            invariant
                i <= n,
                tiles.len() == i,
                access.len() == i,
                forall|j: int|
                    0 <= j < i ==> #[trigger] tiles[j] == (Land {
                        kind: LandType::Land,
                        color: 0u8,
                        amount: 0i64,
                    }),
                forall|j: int| 0 <= j < i ==> #[trigger] access[j] == true,
            decreases n - i,
        {
            tiles.push(Land { kind: LandType::Land, color: 0, amount: 0 });
            access.push(true);
            i = i + 1;
        }
        let m = Grid { width, height, tiles, access };
        proof {
            assert forall|p: Pos| m.contains(p) implies #[trigger] m.tile_at(p) == (Land {
                kind: LandType::Land,
                color: 0u8,
                amount: 0i64,
            }) by {
                m.lemma_idx_bounds(p);
            }
            assert forall|p: Pos| m.contains(p) implies #[trigger] m.is_accessible(p) by {
                m.lemma_idx_bounds(p);
            }
        }
        m
    }

    /// How many tiles the map holds.
    pub fn len_tiles(&self) -> (n: usize)
        ensures
            n == self.spec_len(),
    {
        self.tiles.len()
    }

    /// The position of the tile with row-major index `i`.
    pub fn pos_at(&self, i: usize) -> (p: Pos)
        requires
            self.wf(),
            i < self.spec_len(),
        ensures
            p == self.spec_pos_at(i as int),
            self.contains(p),
            self.idx_of(p) == i,
            self.tile_at(p) == self.spec_tile_idx(i as int),
    {
        proof {
            self.lemma_pos_at_contained(i as int);
        }
        Pos { row: i / self.width, col: i % self.width }
    }

    /// Row-major index of a position.
    pub fn index_of(&self, p: Pos) -> (i: usize)
        requires
            self.wf(),
            self.contains(p),
        ensures
            i == self.idx_of(p),
            i < self.spec_len(),
    {
        proof {
            self.lemma_idx_bounds(p);
        }
        p.row * self.width + p.col
    }

    /// The tile at `p`.
    pub fn lookup(&self, p: Pos) -> (l: Land)
        requires
            self.wf(),
            self.contains(p),
        ensures
            l == self.tile_at(p),
            0 <= l.amount <= MAX_AMOUNT,
    {
        let i = self.index_of(p);
        self.tiles[i]
    }

    /// Whether the tile at `p` is visible to this player.
    pub fn accessible(&self, p: Pos) -> (b: bool)
        requires
            self.wf(),
            self.contains(p),
        ensures
            b == self.is_accessible(p),
    {
        let i = self.index_of(p);
        self.access[i]
    }

    /// Replace the tile at `p`, leaving every other cell as it was.
    pub fn set_tile(&mut self, p: Pos, l: Land)
        requires
            old(self).wf(),
            old(self).contains(p),
            0 <= l.amount <= MAX_AMOUNT,
        ensures
            final(self).wf(),
            final(self).spec_width() == old(self).spec_width(),
            final(self).spec_height() == old(self).spec_height(),
            final(self).spec_len() == old(self).spec_len(),
            final(self).tile_at(p) == l,
            forall|q: Pos|
                old(self).contains(q) && q != p ==> #[trigger] final(self).tile_at(q) == old(
                    self,
                ).tile_at(q),
            forall|q: Pos|
                old(self).contains(q) ==> #[trigger] final(self).is_accessible(q) == old(
                    self,
                ).is_accessible(q),
    {
        proof {
            self.lemma_idx_bounds(p);
        }
        let i = self.index_of(p);
        self.tiles.set(i, l);
        proof {
            assert forall|q: Pos| old(self).contains(q) && q != p implies #[trigger] self.tile_at(
                q,
            ) == old(self).tile_at(q) by {
                old(self).lemma_idx_bounds(q);
                if self.idx_of(q) == self.idx_of(p) {
                    old(self).lemma_pos_at_roundtrip(q);
                    old(self).lemma_pos_at_roundtrip(p);
                }
            }
            assert forall|q: Pos| old(self).contains(q) implies #[trigger] self.is_accessible(q)
                == old(self).is_accessible(q) by {
                old(self).lemma_idx_bounds(q);
            }
        }
    }

    /// Set the accessibility flag at `p`, leaving every other cell as it was.
    pub fn set_accessible(&mut self, p: Pos, b: bool)
        requires
            old(self).wf(),
            old(self).contains(p),
        ensures
            final(self).wf(),
            final(self).spec_width() == old(self).spec_width(),
            final(self).spec_height() == old(self).spec_height(),
            final(self).spec_len() == old(self).spec_len(),
            final(self).is_accessible(p) == b,
            forall|q: Pos|
                old(self).contains(q) && q != p ==> #[trigger] final(self).is_accessible(q) == old(
                    self,
                ).is_accessible(q),
            forall|q: Pos|
                old(self).contains(q) ==> #[trigger] final(self).tile_at(q) == old(self).tile_at(q),
    {
        proof {
            self.lemma_idx_bounds(p);
        }
        let i = self.index_of(p);
        self.access.set(i, b);
        proof {
            assert forall|q: Pos| old(self).contains(q) && q != p implies #[trigger] self
                .is_accessible(q) == old(self).is_accessible(q) by {
                old(self).lemma_idx_bounds(q);
                if self.idx_of(q) == self.idx_of(p) {
                    old(self).lemma_pos_at_roundtrip(q);
                    old(self).lemma_pos_at_roundtrip(p);
                }
            }
            assert forall|q: Pos| old(self).contains(q) implies #[trigger] self.tile_at(q) == old(
                self,
            ).tile_at(q) by {
                old(self).lemma_idx_bounds(q);
            }
        }
    }

    /// The four-neighbourhood of `p`, in the fixed order
    /// up, down, left, right (absent where the grid ends).
    pub open spec fn spec_neighbours(self, p: Pos) -> Seq<Pos> {
        let up = if p.row > 0 {
            seq![Pos { row: (p.row - 1) as usize, col: p.col }]
        } else {
            Seq::<Pos>::empty()
        };
        let down = if p.row + 1 < self.spec_height() {
            seq![Pos { row: (p.row + 1) as usize, col: p.col }]
        } else {
            Seq::<Pos>::empty()
        };
        let left = if p.col > 0 {
            seq![Pos { row: p.row, col: (p.col - 1) as usize }]
        } else {
            Seq::<Pos>::empty()
        };
        let right = if p.col + 1 < self.spec_width() {
            seq![Pos { row: p.row, col: (p.col + 1) as usize }]
        } else {
            Seq::<Pos>::empty()
        };
        up + down + left + right
    }

    pub proof fn lemma_neighbours_contained(self, p: Pos)
        requires
            self.wf(),
            self.contains(p),
        ensures
            forall|k: int|
                0 <= k < self.spec_neighbours(p).len() ==> self.contains(
                    #[trigger] self.spec_neighbours(p)[k],
                ),
    {
    }

    /// Adjacent positions of `p`, ordered up, down, left, right.
    pub fn neighbours(&self, p: Pos) -> (v: Vec<Pos>)
        requires
            self.wf(),
            self.contains(p),
        ensures
            v@ == self.spec_neighbours(p),
    {
        let mut v: Vec<Pos> = Vec::new();
        if p.row > 0 {
            v.push(Pos { row: p.row - 1, col: p.col });
        }
        if p.row + 1 < self.height {
            v.push(Pos { row: p.row + 1, col: p.col });
        }
        if p.col > 0 {
            v.push(Pos { row: p.row, col: p.col - 1 });
        }
        if p.col + 1 < self.width {
            v.push(Pos { row: p.row, col: p.col + 1 });
        }
        proof {
            assert(v@ =~= self.spec_neighbours(p));
        }
        v
    }
}

} // verus!
