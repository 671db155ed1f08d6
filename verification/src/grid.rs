//! The grid engine: cells, bomb placement, flood-fill reveal and the status
//! query, together with the mathematical model they are specified against.

use rand::RngExt;
use vstd::arithmetic::div_mod::lemma_fundamental_div_mod;
use vstd::arithmetic::div_mod::lemma_fundamental_div_mod_converse;
use vstd::arithmetic::div_mod::lemma_mod_bound;
use vstd::prelude::*;

verus! {

/// Visibility of one cell: player-flagged, uncovered, or still hidden.
#[allow(non_camel_case_types)]
#[derive(Clone, Copy, PartialEq, Eq, Structural)]
pub enum CellStatus {
    FLAG,
    REVEAL,
    HIDDEN,
}

/// One grid position: the count of bombs among its eight neighbors, whether
/// it holds a bomb itself, and its visibility.
#[derive(Clone, Copy)]
pub struct CellState {
    pub surrounds: usize,
    pub bomb: bool,
    pub status: CellStatus,
}

/// Overall state of a game, as reported by [`Mines::status`].
#[derive(Clone, Copy, Eq, PartialEq, PartialOrd, Ord, Debug, Structural)]
pub enum Status {
    GameOver,
    Unfinished,
    Win,
}

/// Why a call to [`Mines::generate`] was rejected.
#[derive(Clone, Copy, Eq, PartialEq, Debug, Structural)]
pub enum GenerateError {
    /// More bombs were requested than cells outside the excluded row and
    /// column exist.
    TooManyBombs,
    /// The grid already went through bomb placement once.
    AlreadyGenerated,
}

/// A Minesweeper grid: a dense row-major sequence of cells addressed by
/// 1-based `(x, y)` coordinates, plus a one-shot generation flag.
pub struct Mines {
    pub width: usize,
    pub height: usize,
    pub state: Vec<CellState>,
    pub generated: bool,
}

impl CellState {
    /// The default state of a cell: hidden, bomb-free, zero neighbor count.
    pub open spec fn initial() -> CellState {
        CellState { surrounds: 0, bomb: false, status: CellStatus::HIDDEN }
    }

    /// Whether the player has uncovered this cell.
    pub fn revealed(&self) -> (r: bool)
        ensures
            r == (self.status == CellStatus::REVEAL),
    {
        self.status == CellStatus::REVEAL
    }
}

impl Default for CellState {
    fn default() -> (c: CellState)
        ensures
            c == CellState::initial(),
    {
        CellState { surrounds: 0, bomb: false, status: CellStatus::HIDDEN }
    }
}

impl Default for Mines {
    /// The stock board: a fresh ten-by-ten grid.
    fn default() -> (g: Mines)
        ensures
            g.width == 10,
            g.height == 10,
            !g.generated,
            g.state@.len() == 100,
            forall|i: int| 0 <= i < g.state@.len() ==> #[trigger] g.state@[i] == CellState::initial(),
            g.inv(),
    {
        Mines::new(10, 10)
    }
}

/// The cell as it stands once uncovered: only the visibility changes.
pub open spec fn reveal_cell(c: CellState) -> CellState {
    CellState { surrounds: c.surrounds, bomb: c.bomb, status: CellStatus::REVEAL }
}

/// Whether `(x2, y2)` is one of the eight neighbors of `(x1, y1)`.
pub open spec fn adjacent(x1: int, y1: int, x2: int, y2: int) -> bool {
    &&& -1 <= x2 - x1 <= 1
    &&& -1 <= y2 - y1 <= 1
    &&& !(x2 == x1 && y2 == y1)
}

impl Mines {
    /// Row-major linear index of the 1-based coordinates `(x, y)`.
    pub open spec fn spec_idx(self, x: int, y: int) -> int {
        (y - 1) * self.width as int + (x - 1)
    }

    /// Whether `(x, y)` addresses a cell that is actually stored.
    pub open spec fn present(self, x: int, y: int) -> bool {
        &&& 1 <= x <= self.width
        &&& 1 <= y <= self.height
        &&& self.spec_idx(x, y) < self.state@.len()
    }

    /// The cell stored at `(x, y)`.
    pub open spec fn cell(self, x: int, y: int) -> CellState
        recommends
            self.present(x, y),
    {
        self.state@[self.spec_idx(x, y)]
    }

    /// Whether the cell at `(x, y)` has been uncovered.
    pub open spec fn revealed_at(self, x: int, y: int) -> bool {
        self.cell(x, y).status == CellStatus::REVEAL
    }

    /// A cell through which the flood fill spreads: stored, bomb-free, and
    /// with no bombs around it.
    pub open spec fn spreads(self, x: int, y: int) -> bool {
        &&& self.present(x, y)
        &&& !self.cell(x, y).bomb
        &&& self.cell(x, y).surrounds == 0
    }

    /// Well-formed: one stored cell per coordinate, and small enough that
    /// index arithmetic stays within the machine word.
    pub open spec fn wf(self) -> bool {
        &&& self.state@.len() == self.width * self.height
        &&& self.width * self.height < usize::MAX
    }

    /// No cell holds a bomb or a neighbor count yet.
    pub open spec fn pristine_cells(self) -> bool {
        forall|i: int|
            0 <= i < self.state@.len() ==> !(#[trigger] self.state@[i]).bomb
                && self.state@[i].surrounds == 0
    }

    /// The grid invariant: well-formed, and untouched by bomb placement as
    /// long as the generation flag is clear.
    pub open spec fn inv(self) -> bool {
        &&& self.wf()
        &&& !self.generated ==> self.pristine_cells()
    }

    /// Some stored bomb has been uncovered: the game is lost.
    pub open spec fn has_revealed_bomb(self) -> bool {
        exists|i: int|
            0 <= i < self.state@.len() && (#[trigger] self.state@[i]).bomb
                && self.state@[i].status == CellStatus::REVEAL
    }

    /// Some bomb-free cell is still covered: the game is not over.
    pub open spec fn has_hidden_safe_cell(self) -> bool {
        exists|i: int|
            0 <= i < self.state@.len() && !(#[trigger] self.state@[i]).bomb
                && self.state@[i].status != CellStatus::REVEAL
    }

    /// The status of the whole grid. A revealed bomb counts as a loss even
    /// when every safe cell is revealed as well.
    pub open spec fn spec_status(self) -> Status {
        if self.has_revealed_bomb() {
            Status::GameOver
        } else if self.has_hidden_safe_cell() {
            Status::Unfinished
        } else {
            Status::Win
        }
    }

    /// A fresh grid with the given dimensions: every cell hidden, bomb-free,
    /// and with a zero neighbor count; bomb placement still to come.
    pub fn new(width: usize, height: usize) -> (g: Mines)
        requires
            1 <= width,
            1 <= height,
            width * height < usize::MAX,
        ensures
            g.width == width,
            g.height == height,
            !g.generated,
            g.state@.len() == width * height,
            forall|i: int| 0 <= i < g.state@.len() ==> #[trigger] g.state@[i] == CellState::initial(),
            g.inv(),
    {
        let g = Mines {
            width,
            height,
            state: vec![CellState { surrounds: 0, bomb: false, status: CellStatus::HIDDEN }; width * height],
            generated: false,
        };
        g
    }

    /// The overall game status, computed by one scan of the cells.
    pub fn status(&self) -> (r: Status)
        ensures
            r == self.spec_status(),
    {
        let mut unfinished = false;
        let mut i: usize = 0;
        while i < self.state.len()
            invariant
                i <= self.state@.len(),
                forall|j: int|
                    0 <= j < i ==> !((#[trigger] self.state@[j]).bomb
                        && self.state@[j].status == CellStatus::REVEAL),
                unfinished == exists|j: int|
                    0 <= j < i && !(#[trigger] self.state@[j]).bomb
                        && self.state@[j].status != CellStatus::REVEAL,
            decreases self.state@.len() - i,
        {
            let c = self.state[i];
            if c.bomb && c.status == CellStatus::REVEAL {
                return Status::GameOver;
            }
            if !c.bomb && c.status != CellStatus::REVEAL {
                unfinished = true;
            }
            i += 1;
        }
        if unfinished {
            Status::Unfinished
        } else {
            Status::Win
        }
    }

    /// Bounds-checked lookup of the cell at 1-based `(x, y)`; out-of-range
    /// coordinates simply answer `None`.
    pub fn at(&self, x: usize, y: usize) -> (r: Option<CellState>)
        requires
            self.width * self.height <= usize::MAX,
        ensures
            r == if self.present(x as int, y as int) {
                Some(self.cell(x as int, y as int))
            } else {
                None::<CellState>
            },
    {
        if x == 0 || y == 0 || x > self.width || y > self.height {
            return None;
        }
        proof {
            assert((y - 1) * self.width as int + (x - 1) < self.width * self.height) by (nonlinear_arith)
                requires
                    1 <= x <= self.width,
                    1 <= y <= self.height,
            ;
        }
        let i = (y - 1) * self.width + (x - 1);
        if i < self.state.len() {
            Some(self.state[i])
        } else {
            None
        }
    }

    /// 1 when the cell at `(x, y)` is stored and holds a bomb, else 0.
    fn bomb_at(&self, x: usize, y: usize) -> (r: usize)
        requires
            self.width * self.height <= usize::MAX,
        ensures
            r as int == bomb_ind(*self, x as int, y as int),
    {
        match self.at(x, y) {
            Some(c) => if c.bomb {
                1
            } else {
                0
            },
            None => 0,
        }
    }

    /// How many of the eight neighbors of `(x, y)` are stored cells holding
    /// a bomb.
    fn count_adjacent_bombs(&self, x: usize, y: usize) -> (r: usize)
        requires
            self.width * self.height < usize::MAX,
            1 <= x <= self.width,
            1 <= y <= self.height,
        ensures
            r as int == neighbor_bomb_count(*self, x as int, y as int),
    {
        proof {
            assert((x as int) < usize::MAX && (y as int) < usize::MAX) by (nonlinear_arith)
                requires
                    1 <= x as int <= self.width as int,
                    1 <= y as int <= self.height as int,
                    self.width * self.height < usize::MAX,
            ;
        }
        let xm = x - 1;
        let xp = x + 1;
        let ym = y - 1;
        let yp = y + 1;
        let mut cnt: usize = 0;
        cnt = cnt + self.bomb_at(xm, ym);
        cnt = cnt + self.bomb_at(x, ym);
        cnt = cnt + self.bomb_at(xp, ym);
        cnt = cnt + self.bomb_at(xm, y);
        cnt = cnt + self.bomb_at(xp, y);
        cnt = cnt + self.bomb_at(xm, yp);
        cnt = cnt + self.bomb_at(x, yp);
        cnt = cnt + self.bomb_at(xp, yp);
        cnt
    }

    /// Place `bomb_num` bombs on a freshly constructed grid, avoiding the
    /// whole row and column of `exclude` (the player's first click), and fill
    /// in every cell's neighbor-bomb count. Each bomb lands on a cell drawn
    /// at random from the cells still allowed. Placement happens at most
    /// once: a second call is rejected, as is a request for more bombs than
    /// allowed cells exist.
    pub fn generate(&mut self, bomb_num: usize, exclude: (usize, usize)) -> (r: Result<
        (),
        GenerateError,
    >)
        requires
            old(self).inv(),
            1 <= exclude.0 <= old(self).width,
            1 <= exclude.1 <= old(self).height,
        ensures
            final(self).width == old(self).width,
            final(self).height == old(self).height,
            final(self).inv(),
            r is Err ==> *final(self) == *old(self),
            old(self).generated <==> r == Err::<(), GenerateError>(GenerateError::AlreadyGenerated),
            !old(self).generated ==> ((bomb_num > (old(self).width - 1) * (old(self).height - 1))
                <==> r == Err::<(), GenerateError>(GenerateError::TooManyBombs)),
            !old(self).generated && bomb_num <= (old(self).width - 1) * (old(self).height - 1)
                ==> {
                &&& r == Ok::<(), GenerateError>(())
                &&& final(self).generated
                &&& final(self).state@.len() == old(self).state@.len()
                &&& count_bombs(final(self).state@) == bomb_num
                &&& forall|j: int|
                    0 <= j < final(self).state@.len()
                        ==> (#[trigger] final(self).state@[j]).status == old(self).state@[j].status
                &&& forall|px: int, py: int|
                    final(self).present(px, py) && (#[trigger] final(self).cell(px, py)).bomb
                        ==> px != exclude.0 && py != exclude.1
                &&& forall|px: int, py: int|
                    #[trigger] final(self).present(px, py) ==> final(self).cell(px, py).surrounds
                        == neighbor_bomb_count(*final(self), px, py)
            },
    {
        if self.generated {
            return Err(GenerateError::AlreadyGenerated);
        }
        let ghost gs = *self;
        let w = self.width;
        let h = self.height;
        let total = w * h;
        let mut cands: Vec<(usize, usize)> = Vec::new();
        let mut i: usize = 0;
        while i < total
            invariant
                *self == gs,
                gs.inv(),
                !gs.generated,
                w == gs.width,
                h == gs.height,
                total == gs.width * gs.height,
                1 <= w,
                1 <= h,
                1 <= exclude.0 <= w,
                1 <= exclude.1 <= h,
                i <= total,
                cands@.len() == free_count(w as int, exclude.0 as int, exclude.1 as int, i as int),
                forall|k: int|
                    0 <= k < cands@.len() ==> {
                        &&& 1 <= (#[trigger] cands@[k]).0 <= w
                        &&& 1 <= cands@[k].1 <= h
                        &&& cands@[k].0 != exclude.0
                        &&& cands@[k].1 != exclude.1
                    },
                forall|k: int| 0 <= k < cands@.len() ==> pair_idx(w as int, #[trigger] cands@[k]) < i,
                forall|k1: int, k2: int|
                    0 <= k1 < k2 < cands@.len() ==> pair_idx(w as int, #[trigger] cands@[k1])
                        < pair_idx(w as int, #[trigger] cands@[k2]),
            decreases total - i,
        {
            proof {
                lemma_index_coords(w as int, h as int, i as int);
                assert(!gs.state@[i as int].bomb);
            }
            let cx = i % w + 1;
            let cy = i / w + 1;
            if cx != exclude.0 && cy != exclude.1 && !self.state[i].bomb {
                cands.push((cx, cy));
                proof {
                    assert(pair_idx(w as int, (cx, cy)) == i as int);
                }
            }
            i += 1;
        }
        proof {
            lemma_free_count_total(w as int, h as int, exclude.0 as int, exclude.1 as int);
            assert(cands@.len() == (w as int - 1) * (h as int - 1));
        }
        if bomb_num > cands.len() {
            return Err(GenerateError::TooManyBombs);
        }
        let ghost c0 = cands@.len() as int;
        let mut placed: usize = 0;
        proof {
            lemma_count_bombs_zero(gs.state@);
        }
        while placed < bomb_num
            invariant
                self.width == gs.width,
                self.height == gs.height,
                self.generated == gs.generated,
                !gs.generated,
                self.state@.len() == gs.state@.len(),
                gs.inv(),
                w == gs.width,
                h == gs.height,
                total == gs.width * gs.height,
                1 <= w,
                1 <= h,
                1 <= exclude.0 <= w,
                1 <= exclude.1 <= h,
                placed <= bomb_num,
                cands@.len() + placed == c0,
                bomb_num <= c0,
                forall|k: int|
                    0 <= k < cands@.len() ==> {
                        &&& 1 <= (#[trigger] cands@[k]).0 <= w
                        &&& 1 <= cands@[k].1 <= h
                        &&& cands@[k].0 != exclude.0
                        &&& cands@[k].1 != exclude.1
                    },
                forall|k1: int, k2: int|
                    0 <= k1 < k2 < cands@.len() ==> #[trigger] cands@[k1] != #[trigger] cands@[k2],
                forall|k: int|
                    0 <= k < cands@.len() ==> !self.state@[pair_idx(
                        w as int,
                        #[trigger] cands@[k],
                    )].bomb,
                count_bombs(self.state@) == placed,
                forall|px: int, py: int|
                    self.present(px, py) && (#[trigger] self.cell(px, py)).bomb ==> px != exclude.0
                        && py != exclude.1,
                forall|j: int|
                    0 <= j < self.state@.len() ==> (#[trigger] self.state@[j]).status
                        == gs.state@[j].status && self.state@[j].surrounds == 0,
            decreases bomb_num - placed,
        {
            let k = random_below(cands.len());
            let bpos = cands[k];
            let bx = bpos.0;
            let by = bpos.1;
            let ghost cands0 = cands@;
            cands.swap_remove(k);
            proof {
                lemma_idx_bound(w as int, h as int, bx as int, by as int);
            }
            let bi = (by - 1) * w + (bx - 1);
            let cb = self.state[bi];
            let ghost gpre = *self;
            proof {
                assert(pair_idx(w as int, bpos) == bi as int);
                assert(!cb.bomb);
                lemma_count_bombs_update(
                    gpre.state@,
                    bi as int,
                    CellState { surrounds: cb.surrounds, bomb: true, status: cb.status },
                );
            }
            self.state.set(
                bi,
                CellState { surrounds: cb.surrounds, bomb: true, status: cb.status },
            );
            placed += 1;
            proof {
                let m = cands0.len() as int;
                assert forall|k2: int| 0 <= k2 < cands@.len() implies !self.state@[pair_idx(
                    w as int,
                    cands@[k2],
                )].bomb by {
                    let j2: int = if k2 == k as int {
                        m - 1
                    } else {
                        k2
                    };
                    assert(cands@[k2] == cands0[j2]);
                    assert(0 <= j2 < m && j2 != k as int);
                    assert(cands0[j2] != cands0[k as int]);
                    lemma_idx_bound(w as int, h as int, cands0[j2].0 as int, cands0[j2].1 as int);
                    assert(0 <= pair_idx(w as int, cands0[j2]) < gpre.state@.len());
                    assert(!gpre.state@[pair_idx(w as int, cands0[j2])].bomb);
                    lemma_idx_inj2(
                        w as int,
                        cands0[j2].0 as int,
                        cands0[j2].1 as int,
                        bx as int,
                        by as int,
                    );
                    assert(pair_idx(w as int, cands0[j2]) != bi as int);
                };
                assert forall|px: int, py: int|
                    self.present(px, py) && (#[trigger] self.cell(px, py)).bomb implies px
                    != exclude.0 && py != exclude.1 by {
                    if !gpre.cell(px, py).bomb {
                        lemma_idx_inj2(w as int, px, py, bx as int, by as int);
                        assert(px == bx as int && py == by as int);
                    }
                };
            }
        }
        let ghost gb = *self;
        let mut j: usize = 0;
        while j < total
            invariant
                self.width == gb.width,
                self.height == gb.height,
                self.generated == gb.generated,
                self.state@.len() == gb.state@.len(),
                w == gb.width,
                h == gb.height,
                total == gb.width * gb.height,
                total == gb.state@.len(),
                gb.width * gb.height < usize::MAX,
                1 <= w,
                1 <= h,
                j <= total,
                forall|t: int|
                    0 <= t < gb.state@.len() ==> (#[trigger] self.state@[t]).bomb
                        == gb.state@[t].bomb && self.state@[t].status == gb.state@[t].status,
                forall|t: int|
                    j <= t < gb.state@.len() ==> (#[trigger] self.state@[t]).surrounds
                        == gb.state@[t].surrounds,
                forall|t: int|
                    0 <= t < j ==> (#[trigger] self.state@[t]).surrounds as int
                        == neighbor_bomb_count(gb, col_of(w as int, t), row_of(w as int, t)),
            decreases total - j,
        {
            proof {
                lemma_index_coords(w as int, h as int, j as int);
            }
            let cx = j % w + 1;
            let cy = j / w + 1;
            let cnt = self.count_adjacent_bombs(cx, cy);
            proof {
                assert(neighbor_bomb_count(*self, cx as int, cy as int) == neighbor_bomb_count(
                    gb,
                    cx as int,
                    cy as int,
                ));
            }
            let cc = self.state[j];
            self.state.set(j, CellState { surrounds: cnt, bomb: cc.bomb, status: cc.status });
            j += 1;
        }
        self.generated = true;
        proof {
            lemma_count_bombs_same(self.state@, gb.state@);
            assert forall|t: int| 0 <= t < self.state@.len() implies (#[trigger] self.state@[t]).status
                == gs.state@[t].status by {
                assert(self.state@[t].status == gb.state@[t].status);
            };
            assert forall|px: int, py: int|
                self.present(px, py) && (#[trigger] self.cell(px, py)).bomb implies px != exclude.0
                && py != exclude.1 by {
                assert(gb.present(px, py) && gb.cell(px, py).bomb);
            };
            assert forall|px: int, py: int| #[trigger] self.present(px, py) implies self.cell(
                px,
                py,
            ).surrounds as int == neighbor_bomb_count(*self, px, py) by {
                lemma_idx_bound(w as int, h as int, px, py);
                let t = self.spec_idx(px, py);
                lemma_index_coords(w as int, h as int, t);
                lemma_idx_inj2(w as int, px, py, col_of(w as int, t), row_of(w as int, t));
                assert(col_of(w as int, t) == px && row_of(w as int, t) == py);
                assert(neighbor_bomb_count(gb, px, py) == neighbor_bomb_count(*self, px, py));
            };
        }
        Ok(())
    }

    /// Uncover the cell at 1-based `(x, y)`. Once the game has ended this is
    /// a no-op; otherwise the cell is revealed and, when it is bomb-free with
    /// a zero neighbor count, the reveal floods through its whole zero-count
    /// region and that region's border. Out-of-range coordinates are ignored.
    #[verifier::rlimit(60)]
    pub fn uncover(&mut self, x: usize, y: usize)
        requires
            old(self).width * old(self).height < usize::MAX,
        ensures
            reveal_rel(*old(self), *final(self), x as int, y as int),
    {
        let s = self.status();
        if !(s == Status::Unfinished) {
            return ;
        }
        let ghost g0 = *self;
        let mut stack: Vec<(usize, usize)> = Vec::new();
        stack.push((x, y));
        proof {
            assert(stack@[0] == (x, y));
            assert(on_stack(stack@, x as int, y as int));
        }
        while stack.len() > 0
            invariant
                self.width == g0.width,
                self.height == g0.height,
                self.generated == g0.generated,
                self.state@.len() == g0.state@.len(),
                g0.width * g0.height < usize::MAX,
                forall|j: int|
                    0 <= j < g0.state@.len() ==> (#[trigger] self.state@[j]).bomb
                        == g0.state@[j].bomb && self.state@[j].surrounds == g0.state@[j].surrounds,
                forall|j: int|
                    0 <= j < g0.state@.len() ==> #[trigger] self.state@[j] == g0.state@[j] || (
                    self.state@[j] == reveal_cell(g0.state@[j]) && reached_idx(
                        g0,
                        x as int,
                        y as int,
                        j,
                    )),
                forall|k: int|
                    0 <= k < stack@.len() ==> stack_entry_ok(
                        g0,
                        x as int,
                        y as int,
                        (#[trigger] stack@[k]).0 as int,
                        stack@[k].1 as int,
                    ),
                forall|qx: int, qy: int, rx: int, ry: int|
                    g0.spreads(qx, qy) && !g0.revealed_at(qx, qy) && #[trigger] self.revealed_at(
                        qx,
                        qy,
                    ) && #[trigger] adjacent(qx, qy, rx, ry) && g0.present(rx, ry)
                        ==> self.revealed_at(rx, ry) || on_stack(stack@, rx, ry),
                !g0.present(x as int, y as int) || g0.revealed_at(x as int, y as int)
                    || self.revealed_at(x as int, y as int) || on_stack(
                    stack@,
                    x as int,
                    y as int,
                ),
            decreases unrevealed_count(self.state@), stack@.len(),
        {
            let ghost pre = *self;
            let ghost stack0 = stack@;
            let e = stack.pop().unwrap();
            let cx = e.0;
            let cy = e.1;
            if 1 <= cx && cx <= self.width && 1 <= cy && cy <= self.height {
                proof {
                    assert((cy as int - 1) * (g0.width as int) + (cx as int - 1) < g0.width
                        * g0.height) by (nonlinear_arith)
                        requires
                            1 <= cx as int <= g0.width as int,
                            1 <= cy as int <= g0.height as int,
                    ;
                }
                let i = (cy - 1) * self.width + (cx - 1);
                if i < self.state.len() {
                    let c = self.state[i];
                    if c.status != CellStatus::REVEAL {
                        proof {
                            assert(g0.present(cx as int, cy as int));
                            assert(!g0.revealed_at(cx as int, cy as int));
                            assert(stack_entry_ok(g0, x as int, y as int, cx as int, cy as int));
                            if cx as int == x as int && cy as int == y as int {
                                assert(reach_n(g0, x as int, y as int, cx as int, cy as int, 0));
                            } else {
                                let (qx, qy) = choose|qx: int, qy: int|
                                    #[trigger] fill_reaches(g0, x as int, y as int, qx, qy)
                                        && g0.spreads(qx, qy) && adjacent(
                                        qx,
                                        qy,
                                        cx as int,
                                        cy as int,
                                    );
                                let n = choose|n: nat| reach_n(g0, x as int, y as int, qx, qy, n);
                                assert(reach_n(g0, x as int, y as int, cx as int, cy as int, n + 1));
                            }
                            assert(fill_reaches(g0, x as int, y as int, cx as int, cy as int));
                            assert(reached_idx(g0, x as int, y as int, i as int));
                            lemma_unrevealed_count_update(
                                pre.state@,
                                i as int,
                                reveal_cell(pre.state@[i as int]),
                            );
                        }
                        self.state.set(
                            i,
                            CellState { surrounds: c.surrounds, bomb: c.bomb, status: CellStatus::REVEAL },
                        );
                        if !c.bomb && c.surrounds == 0 {
                            proof {
                                assert((cx as int) < usize::MAX && (cy as int) < usize::MAX)
                                    by (nonlinear_arith)
                                    requires
                                        1 <= cx as int <= g0.width as int,
                                        1 <= cy as int <= g0.height as int,
                                        g0.width * g0.height < usize::MAX,
                                ;
                            }
                            let ns = surround_at(cx, cy);
                            let ghost base = stack@;
                            let n0 = ns[0];
                            let n1 = ns[1];
                            let n2 = ns[2];
                            let n3 = ns[3];
                            let n4 = ns[4];
                            let n5 = ns[5];
                            let n6 = ns[6];
                            let n7 = ns[7];
                            stack.push(n0);
                            stack.push(n1);
                            stack.push(n2);
                            stack.push(n3);
                            stack.push(n4);
                            stack.push(n5);
                            stack.push(n6);
                            stack.push(n7);
                            proof {
                                let b = base.len() as int;
                                assert(stack@.len() == b + 8);
                                assert(stack@[b + 0] == n0);
                                assert(stack@[b + 1] == n1);
                                assert(stack@[b + 2] == n2);
                                assert(stack@[b + 3] == n3);
                                assert(stack@[b + 4] == n4);
                                assert(stack@[b + 5] == n5);
                                assert(stack@[b + 6] == n6);
                                assert(stack@[b + 7] == n7);
                                assert(g0.spreads(cx as int, cy as int));
                                assert forall|rx: int, ry: int|
                                    adjacent(cx as int, cy as int, rx, ry) && 1 <= rx && 1 <= ry
                                        implies on_stack(stack@, rx, ry) by {
                                    if ry == cy as int - 1 {
                                        if rx == cx as int - 1 {
                                            assert((stack@[b + 0]).0 as int == rx && (stack@[b
                                                + 0]).1 as int == ry);
                                        } else if rx == cx as int {
                                            assert((stack@[b + 1]).0 as int == rx && (stack@[b
                                                + 1]).1 as int == ry);
                                        } else {
                                            assert((stack@[b + 2]).0 as int == rx && (stack@[b
                                                + 2]).1 as int == ry);
                                        }
                                    } else if ry == cy as int {
                                        if rx == cx as int - 1 {
                                            assert((stack@[b + 3]).0 as int == rx && (stack@[b
                                                + 3]).1 as int == ry);
                                        } else {
                                            assert((stack@[b + 4]).0 as int == rx && (stack@[b
                                                + 4]).1 as int == ry);
                                        }
                                    } else {
                                        if rx == cx as int - 1 {
                                            assert((stack@[b + 5]).0 as int == rx && (stack@[b
                                                + 5]).1 as int == ry);
                                        } else if rx == cx as int {
                                            assert((stack@[b + 6]).0 as int == rx && (stack@[b
                                                + 6]).1 as int == ry);
                                        } else {
                                            assert((stack@[b + 7]).0 as int == rx && (stack@[b
                                                + 7]).1 as int == ry);
                                        }
                                    }
                                };
                                assert forall|k: int| 0 <= k < stack@.len() implies stack_entry_ok(
                                    g0,
                                    x as int,
                                    y as int,
                                    (stack@[k]).0 as int,
                                    stack@[k].1 as int,
                                ) by {
                                    if k < b {
                                        assert(stack@[k] == stack0[k]);
                                        assert(stack_entry_ok(
                                            g0,
                                            x as int,
                                            y as int,
                                            stack0[k].0 as int,
                                            stack0[k].1 as int,
                                        ));
                                    } else {
                                        assert(fill_reaches(
                                            g0,
                                            x as int,
                                            y as int,
                                            cx as int,
                                            cy as int,
                                        ) && g0.spreads(cx as int, cy as int) && adjacent(
                                            cx as int,
                                            cy as int,
                                            (stack@[k]).0 as int,
                                            stack@[k].1 as int,
                                        ));
                                    }
                                };
                            }
                        }
                    }
                }
            }
            proof {
                let w = g0.width as int;
                // a revealed cell stays revealed
                assert forall|px: int, py: int|
                    g0.present(px, py) && pre.revealed_at(px, py) implies self.revealed_at(
                    px,
                    py,
                ) by {};
                // the popped cell, when stored, ends this iteration revealed
                assert(g0.present(cx as int, cy as int) ==> self.revealed_at(cx as int, cy as int));
                // closure of the reveal relation under zero-count stepping
                assert forall|qx: int, qy: int, rx: int, ry: int|
                    g0.spreads(qx, qy) && !g0.revealed_at(qx, qy) && #[trigger] self.revealed_at(
                        qx,
                        qy,
                    ) && #[trigger] adjacent(qx, qy, rx, ry) && g0.present(rx, ry)
                        implies self.revealed_at(rx, ry) || on_stack(stack@, rx, ry) by {
                    if pre.revealed_at(qx, qy) {
                        assert(pre.revealed_at(rx, ry) || on_stack(stack0, rx, ry));
                        if pre.revealed_at(rx, ry) {
                            assert(self.revealed_at(rx, ry));
                        } else {
                            let k = choose|k: int|
                                0 <= k < stack0.len() && (#[trigger] stack0[k]).0 as int == rx
                                    && stack0[k].1 as int == ry;
                            if k < stack0.len() - 1 {
                                assert(stack@[k] == stack0[k]);
                                assert(on_stack(stack@, rx, ry));
                            } else {
                                assert(rx == cx as int && ry == cy as int);
                                assert(self.revealed_at(rx, ry));
                            }
                        }
                    } else {
                        // the cell newly revealed this iteration is the popped one
                        assert(self.state@[g0.spec_idx(qx, qy)] != pre.state@[g0.spec_idx(qx, qy)]);
                        assert(g0.present(cx as int, cy as int) && g0.spec_idx(qx, qy)
                            == g0.spec_idx(cx as int, cy as int));
                        lemma_idx_inj(w, qx, qy, cx as int, cy as int);
                        assert(qx == cx as int && qy == cy as int);
                        assert(on_stack(stack@, rx, ry));
                    }
                };
                // the starting cell stays covered by the worklist or is revealed
                assert(!g0.present(x as int, y as int) || g0.revealed_at(x as int, y as int)
                    || self.revealed_at(x as int, y as int) || on_stack(
                    stack@,
                    x as int,
                    y as int,
                )) by {
                    if g0.present(x as int, y as int) && !g0.revealed_at(x as int, y as int)
                        && !self.revealed_at(x as int, y as int) {
                        assert(!pre.revealed_at(x as int, y as int));
                        assert(on_stack(stack0, x as int, y as int));
                        let k = choose|k: int|
                            0 <= k < stack0.len() && (#[trigger] stack0[k]).0 as int == x as int
                                && stack0[k].1 as int == y as int;
                        if k < stack0.len() - 1 {
                            assert(stack@[k] == stack0[k]);
                            assert(on_stack(stack@, x as int, y as int));
                        } else {
                            assert(false);
                        }
                    }
                };
            }
        }
        proof {
            assert forall|qx: int, qy: int, rx: int, ry: int|
                g0.spreads(qx, qy) && !g0.revealed_at(qx, qy) && #[trigger] self.revealed_at(qx, qy)
                    && #[trigger] adjacent(qx, qy, rx, ry) && g0.present(rx, ry)
                    implies self.revealed_at(rx, ry) by {
                assert(!on_stack(stack@, rx, ry));
            };
            assert(g0.present(x as int, y as int) && !g0.revealed_at(x as int, y as int)
                ==> self.revealed_at(x as int, y as int));
            assert forall|i: int| 0 <= i < g0.state@.len() implies #[trigger] self.state@[i] == (
            if reached_idx(g0, x as int, y as int, i) {
                reveal_cell(g0.state@[i])
            } else {
                g0.state@[i]
            }) by {
                if reached_idx(g0, x as int, y as int, i) {
                    let (px, py) = choose|px: int, py: int|
                        g0.present(px, py) && g0.spec_idx(px, py) == i && #[trigger] fill_reaches(
                            g0,
                            x as int,
                            y as int,
                            px,
                            py,
                        );
                    let n = choose|n: nat| reach_n(g0, x as int, y as int, px, py, n);
                    lemma_reach_props(g0, x as int, y as int, px, py, n);
                    lemma_fill_revealed(g0, *self, x as int, y as int, px, py, n);
                    assert(self.state@[i] == reveal_cell(g0.state@[i]));
                }
            };
            assert(reveal_rel(g0, *self, x as int, y as int));
        }
    }
}

/// The flood fill starting at `(sx, sy)` reaches `(px, py)` in at most `n`
/// steps: there is a chain of adjacent, stored, still-covered cells from the
/// start to the target whose every link but the last is bomb-free with a zero
/// neighbor count.
pub open spec fn reach_n(g: Mines, sx: int, sy: int, px: int, py: int, n: nat) -> bool
    decreases n,
{
    if px == sx && py == sy {
        g.present(px, py) && !g.revealed_at(px, py)
    } else if n == 0 {
        false
    } else {
        &&& g.present(px, py)
        &&& !g.revealed_at(px, py)
        &&& exists|qx: int, qy: int|
            reach_n(g, sx, sy, qx, qy, (n - 1) as nat) && #[trigger] g.spreads(qx, qy)
                && #[trigger] adjacent(qx, qy, px, py)
    }
}

/// The flood fill starting at `(sx, sy)` reaches `(px, py)` in some number
/// of steps.
pub open spec fn fill_reaches(g: Mines, sx: int, sy: int, px: int, py: int) -> bool {
    exists|n: nat| reach_n(g, sx, sy, px, py, n)
}

/// The flood fill starting at `(sx, sy)` reaches the cell stored at linear
/// index `i`.
pub open spec fn reached_idx(g: Mines, sx: int, sy: int, i: int) -> bool {
    exists|px: int, py: int|
        g.present(px, py) && g.spec_idx(px, py) == i && #[trigger] fill_reaches(g, sx, sy, px, py)
}

/// How one reveal call transforms the grid: a no-op once the game has ended,
/// and otherwise exactly the flood-fill-reached cells flip to revealed.
pub open spec fn reveal_rel(g0: Mines, g1: Mines, x: int, y: int) -> bool {
    if g0.spec_status() != Status::Unfinished {
        g1 == g0
    } else {
        &&& g1.width == g0.width
        &&& g1.height == g0.height
        &&& g1.generated == g0.generated
        &&& g1.state@.len() == g0.state@.len()
        &&& forall|i: int|
            0 <= i < g0.state@.len() ==> #[trigger] g1.state@[i] == if reached_idx(g0, x, y, i) {
                reveal_cell(g0.state@[i])
            } else {
                g0.state@[i]
            }
    }
}

/// The coordinate pair `(px, py)` sits somewhere on the worklist.
pub open spec fn on_stack(st: Seq<(usize, usize)>, px: int, py: int) -> bool {
    exists|k: int| 0 <= k < st.len() && (#[trigger] st[k]).0 as int == px && st[k].1 as int == py
}

/// A worklist entry is either the starting cell or a neighbor of some
/// zero-count cell the fill has already reached.
pub open spec fn stack_entry_ok(g: Mines, sx: int, sy: int, ex: int, ey: int) -> bool {
    ||| (ex == sx && ey == sy)
    ||| exists|qx: int, qy: int|
        #[trigger] fill_reaches(g, sx, sy, qx, qy) && g.spreads(qx, qy) && adjacent(qx, qy, ex, ey)
}

/// How many cells of `s` are still covered.
pub open spec fn unrevealed_count(s: Seq<CellState>) -> nat
    decreases s.len(),
{
    if s.len() == 0 {
        0
    } else {
        unrevealed_count(s.drop_last()) + if s.last().status != CellStatus::REVEAL {
            1nat
        } else {
            0nat
        }
    }
}

proof fn lemma_unrevealed_count_update(s: Seq<CellState>, i: int, c: CellState)
    requires
        0 <= i < s.len(),
        s[i].status != CellStatus::REVEAL,
        c.status == CellStatus::REVEAL,
    ensures
        unrevealed_count(s.update(i, c)) < unrevealed_count(s),
    decreases s.len(),
{
    let t = s.update(i, c);
    if i == s.len() - 1 {
        assert(t.drop_last() =~= s.drop_last());
    } else {
        assert(t.drop_last() =~= s.drop_last().update(i, c));
        lemma_unrevealed_count_update(s.drop_last(), i, c);
        assert(t.last() == s.last());
    }
}

/// Distinct in-range coordinates have distinct linear indices.
proof fn lemma_idx_inj(w: int, x1: int, y1: int, x2: int, y2: int)
    by (nonlinear_arith)
    requires
        1 <= x1 <= w,
        1 <= x2 <= w,
        (y1 - 1) * w + (x1 - 1) == (y2 - 1) * w + (x2 - 1),
    ensures
        x1 == x2,
        y1 == y2,
{
}

/// A reached cell is stored and still covered.
proof fn lemma_reach_props(g: Mines, sx: int, sy: int, px: int, py: int, n: nat)
    requires
        reach_n(g, sx, sy, px, py, n),
    ensures
        g.present(px, py),
        !g.revealed_at(px, py),
{
    if px == sx && py == sy {
    }
}

/// Whatever the fill reaches starts from a stored, still-covered cell.
pub(crate) proof fn lemma_reach_start(g: Mines, sx: int, sy: int, px: int, py: int, n: nat)
    requires
        reach_n(g, sx, sy, px, py, n),
    ensures
        g.present(sx, sy),
        !g.revealed_at(sx, sy),
    decreases n,
{
    if px == sx && py == sy {
    } else {
        let (qx, qy) = choose|qx: int, qy: int|
            reach_n(g, sx, sy, qx, qy, (n - 1) as nat) && #[trigger] g.spreads(qx, qy)
                && adjacent(qx, qy, px, py);
        lemma_reach_start(g, sx, sy, qx, qy, (n - 1) as nat);
    }
}

/// In a grid `g1` whose revealed set contains the start and is closed under
/// stepping from revealed zero-count cells to their stored neighbors, every
/// cell the fill reaches in `g0` is revealed.
proof fn lemma_fill_revealed(g0: Mines, g1: Mines, sx: int, sy: int, px: int, py: int, n: nat)
    requires
        g1.width == g0.width,
        g1.height == g0.height,
        g1.state@.len() == g0.state@.len(),
        forall|qx: int, qy: int, rx: int, ry: int|
            g0.spreads(qx, qy) && !g0.revealed_at(qx, qy) && #[trigger] g1.revealed_at(qx, qy)
                && #[trigger] adjacent(qx, qy, rx, ry) && g0.present(rx, ry) ==> g1.revealed_at(
                rx,
                ry,
            ),
        g0.present(sx, sy) && !g0.revealed_at(sx, sy) ==> g1.revealed_at(sx, sy),
        reach_n(g0, sx, sy, px, py, n),
    ensures
        g1.revealed_at(px, py),
    decreases n,
{
    if px == sx && py == sy {
    } else {
        let (qx, qy) = choose|qx: int, qy: int|
            reach_n(g0, sx, sy, qx, qy, (n - 1) as nat) && #[trigger] g0.spreads(qx, qy)
                && adjacent(qx, qy, px, py);
        lemma_fill_revealed(g0, g1, sx, sy, qx, qy, (n - 1) as nat);
        lemma_reach_props(g0, sx, sy, qx, qy, (n - 1) as nat);
        assert(adjacent(qx, qy, px, py));
    }
}

/// How many cells of `s` hold a bomb.
pub open spec fn count_bombs(s: Seq<CellState>) -> nat
    decreases s.len(),
{
    if s.len() == 0 {
        0
    } else {
        count_bombs(s.drop_last()) + if s.last().bomb {
            1nat
        } else {
            0nat
        }
    }
}

proof fn lemma_count_bombs_zero(s: Seq<CellState>)
    requires
        forall|j: int| 0 <= j < s.len() ==> !(#[trigger] s[j]).bomb,
    ensures
        count_bombs(s) == 0,
    decreases s.len(),
{
    if s.len() > 0 {
        lemma_count_bombs_zero(s.drop_last());
    }
}

proof fn lemma_count_bombs_update(s: Seq<CellState>, i: int, c: CellState)
    requires
        0 <= i < s.len(),
    ensures
        count_bombs(s.update(i, c)) + (if s[i].bomb {
            1nat
        } else {
            0nat
        }) == count_bombs(s) + (if c.bomb {
            1nat
        } else {
            0nat
        }),
    decreases s.len(),
{
    let t = s.update(i, c);
    if i == s.len() - 1 {
        assert(t.drop_last() =~= s.drop_last());
    } else {
        assert(t.drop_last() =~= s.drop_last().update(i, c));
        lemma_count_bombs_update(s.drop_last(), i, c);
        assert(t.last() == s.last());
    }
}

proof fn lemma_count_bombs_same(s1: Seq<CellState>, s2: Seq<CellState>)
    requires
        s1.len() == s2.len(),
        forall|j: int| 0 <= j < s1.len() ==> (#[trigger] s1[j]).bomb == s2[j].bomb,
    ensures
        count_bombs(s1) == count_bombs(s2),
    decreases s1.len(),
{
    if s1.len() > 0 {
        lemma_count_bombs_same(s1.drop_last(), s2.drop_last());
    }
}

/// The 1-based column of linear index `i` in a grid `w` cells wide.
pub open spec fn col_of(w: int, i: int) -> int {
    i % w + 1
}

/// The 1-based row of linear index `i` in a grid `w` cells wide.
pub open spec fn row_of(w: int, i: int) -> int {
    i / w + 1
}

/// Whether the cell at linear index `i` lies outside both the excluded
/// column `ex_x` and the excluded row `ex_y`.
pub open spec fn is_free(w: int, ex_x: int, ex_y: int, i: int) -> bool {
    col_of(w, i) != ex_x && row_of(w, i) != ex_y
}

/// How many of the first `k` linear indices lie outside both the excluded
/// column and the excluded row.
pub open spec fn free_count(w: int, ex_x: int, ex_y: int, k: int) -> int
    decreases k,
{
    if k <= 0 {
        0
    } else {
        free_count(w, ex_x, ex_y, k - 1) + if is_free(w, ex_x, ex_y, k - 1) {
            1int
        } else {
            0int
        }
    }
}

proof fn lemma_free_count_row(w: int, ex_x: int, ex_y: int, yy: int, t: int)
    requires
        1 <= w,
        1 <= ex_x <= w,
        1 <= yy,
        0 <= t <= w,
    ensures
        free_count(w, ex_x, ex_y, (yy - 1) * w + t) == free_count(w, ex_x, ex_y, (yy - 1) * w) + (
        if yy == ex_y {
            0int
        } else {
            t - if ex_x <= t {
                1int
            } else {
                0int
            }
        }),
    decreases t,
{
    if t > 0 {
        lemma_free_count_row(w, ex_x, ex_y, yy, t - 1);
        let i = (yy - 1) * w + (t - 1);
        assert((yy - 1) * w + (t - 1) >= 0) by (nonlinear_arith)
            requires
                1 <= yy,
                1 <= w,
                1 <= t,
        ;
        lemma_fundamental_div_mod_converse(i, w, yy - 1, t - 1);
        assert(col_of(w, i) == t);
        assert(row_of(w, i) == yy);
        assert((yy - 1) * w + t == i + 1);
    }
}

proof fn lemma_free_count_grid(w: int, ex_x: int, ex_y: int, yy: int)
    requires
        1 <= w,
        1 <= ex_x <= w,
        1 <= ex_y,
        0 <= yy,
    ensures
        free_count(w, ex_x, ex_y, yy * w) == (yy - if ex_y <= yy {
            1int
        } else {
            0int
        }) * (w - 1),
    decreases yy,
{
    if yy == 0 {
        assert(yy * w == 0) by (nonlinear_arith)
            requires
                yy == 0,
        ;
        assert((yy - 0int) * (w - 1) == 0) by (nonlinear_arith)
            requires
                yy == 0,
        ;
        assert(free_count(w, ex_x, ex_y, 0) == 0);
    } else {
        lemma_free_count_grid(w, ex_x, ex_y, yy - 1);
        lemma_free_count_row(w, ex_x, ex_y, yy, w);
        assert((yy - 1) * w + w == yy * w) by (nonlinear_arith);
        let a = (yy - 1) - if ex_y <= yy - 1 {
            1int
        } else {
            0int
        };
        let b = yy - if ex_y <= yy {
            1int
        } else {
            0int
        };
        assert(free_count(w, ex_x, ex_y, yy * w) == free_count(w, ex_x, ex_y, (yy - 1) * w) + (
        if yy == ex_y {
            0int
        } else {
            w - 1
        }));
        assert(free_count(w, ex_x, ex_y, (yy - 1) * w) == a * (w - 1));
        if yy == ex_y {
            assert(b == a);
            assert(b * (w - 1) == a * (w - 1));
        } else {
            assert(b == a + 1);
            assert(b * (w - 1) == a * (w - 1) + (w - 1)) by (nonlinear_arith)
                requires
                    b == a + 1,
            ;
        }
    }
}

/// Outside the excluded row and column a `w` by `h` grid holds exactly
/// `(w - 1) * (h - 1)` cells.
pub(crate) proof fn lemma_free_count_total(w: int, h: int, ex_x: int, ex_y: int)
    requires
        1 <= ex_x <= w,
        1 <= ex_y <= h,
    ensures
        free_count(w, ex_x, ex_y, w * h) == (w - 1) * (h - 1),
{
    lemma_free_count_grid(w, ex_x, ex_y, h);
    assert(w * h == h * w) by (nonlinear_arith);
    assert((h - 1) * (w - 1) == (w - 1) * (h - 1)) by (nonlinear_arith);
}

/// In-range coordinates index into a `w` by `h` grid.
pub(crate) proof fn lemma_idx_bound(w: int, h: int, x: int, y: int)
    by (nonlinear_arith)
    requires
        1 <= x <= w,
        1 <= y <= h,
    ensures
        0 <= (y - 1) * w + (x - 1) < w * h,
{
}

/// Equal linear indices mean equal in-range coordinates.
proof fn lemma_idx_inj2(w: int, x1: int, y1: int, x2: int, y2: int)
    by (nonlinear_arith)
    requires
        1 <= x1 <= w,
        1 <= x2 <= w,
    ensures
        (y1 - 1) * w + (x1 - 1) == (y2 - 1) * w + (x2 - 1) ==> (x1 == x2 && y1 == y2),
{
}

/// Every linear index of a dense grid addresses in-range coordinates.
proof fn lemma_index_coords(w: int, h: int, j: int)
    requires
        1 <= w,
        0 <= j < w * h,
    ensures
        1 <= col_of(w, j) <= w,
        1 <= row_of(w, j) <= h,
        (row_of(w, j) - 1) * w + (col_of(w, j) - 1) == j,
{
    lemma_fundamental_div_mod(j, w);
    lemma_mod_bound(j, w);
    let q = j / w;
    assert(q < h) by {
        if q >= h {
            assert(w * q >= w * h) by (nonlinear_arith)
                requires
                    q >= h,
                    w >= 1,
            ;
        }
    };
    assert(q >= 0) by {
        if q <= -1 {
            assert(w * q <= -w) by (nonlinear_arith)
                requires
                    q <= -1,
                    w >= 1,
            ;
        }
    };
    assert(j == w * q + j % w);
    assert((row_of(w, j) - 1) * w + (col_of(w, j) - 1) == q * w + j % w);
    assert(q * w == w * q) by (nonlinear_arith);
}

/// Linear index of a coordinate pair in a grid `w` cells wide.
pub open spec fn pair_idx(w: int, p: (usize, usize)) -> int {
    (p.1 - 1) * w + (p.0 - 1)
}

/// 1 when the cell at `(x, y)` is stored in `g` and holds a bomb, else 0.
pub open spec fn bomb_ind(g: Mines, x: int, y: int) -> int {
    if g.present(x, y) && g.cell(x, y).bomb {
        1
    } else {
        0
    }
}

/// How many of the eight neighbors of `(x, y)` are stored cells holding a
/// bomb.
pub open spec fn neighbor_bomb_count(g: Mines, x: int, y: int) -> int {
    bomb_ind(g, x - 1, y - 1) + bomb_ind(g, x, y - 1) + bomb_ind(g, x + 1, y - 1) + bomb_ind(
        g,
        x - 1,
        y,
    ) + bomb_ind(g, x + 1, y) + bomb_ind(g, x - 1, y + 1) + bomb_ind(g, x, y + 1) + bomb_ind(
        g,
        x + 1,
        y + 1,
    )
}

/// Relies on rand's `RngExt::random_range` over the thread-local generator
/// `rand::rng()`: it returns a value sampled from `0..n` and panics only
/// when that range is empty.
#[verifier::external_body]
fn random_below(n: usize) -> (r: usize)
    requires
        1 <= n,
    ensures
        r < n,
{
    rand::rng().random_range(0..n)
}

/// The eight neighbor coordinates of `(x, y)`, in row-major order. Entries
/// may lie outside any particular grid; callers filter them.
fn surround_at(x: usize, y: usize) -> (r: Vec<(usize, usize)>)
    requires
        1 <= x < usize::MAX,
        1 <= y < usize::MAX,
    ensures
        r@.len() == 8,
        r@[0] == (((x - 1) as usize, (y - 1) as usize)),
        r@[1] == ((x, (y - 1) as usize)),
        r@[2] == (((x + 1) as usize, (y - 1) as usize)),
        r@[3] == (((x - 1) as usize, y)),
        r@[4] == (((x + 1) as usize, y)),
        r@[5] == (((x - 1) as usize, (y + 1) as usize)),
        r@[6] == ((x, (y + 1) as usize)),
        r@[7] == (((x + 1) as usize, (y + 1) as usize)),
{
    let mut r: Vec<(usize, usize)> = Vec::new();
    r.push((x - 1, y - 1));
    r.push((x, y - 1));
    r.push((x + 1, y - 1));
    r.push((x - 1, y));
    r.push((x + 1, y));
    r.push((x - 1, y + 1));
    r.push((x, y + 1));
    r.push((x + 1, y + 1));
    r
}

} // verus!
