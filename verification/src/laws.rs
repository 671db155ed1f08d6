//! Laws of the grid engine, proved once and for all against the model in
//! [`crate::grid`].

use vstd::prelude::*;

use crate::grid::bomb_ind;
use crate::grid::fill_reaches;
use crate::grid::neighbor_bomb_count;
use crate::grid::lemma_idx_bound;
use crate::grid::lemma_reach_start;
use crate::grid::reach_n;
use crate::grid::reached_idx;
use crate::grid::reveal_cell;
use crate::grid::reveal_rel;
use crate::grid::CellState;
use crate::grid::CellStatus;
use crate::grid::Mines;
use crate::grid::Status;

verus! {

/// A freshly constructed grid reports `Unfinished` whenever it has at least
/// one cell, and `Win` only in the degenerate empty case.
pub proof fn lemma_fresh_status(g: Mines)
    requires
        forall|i: int| 0 <= i < g.state@.len() ==> #[trigger] g.state@[i] == CellState::initial(),
    ensures
        g.state@.len() > 0 ==> g.spec_status() == Status::Unfinished,
        g.state@.len() == 0 ==> g.spec_status() == Status::Win,
{
    if g.state@.len() > 0 {
        assert(g.state@[0] == CellState::initial());
        assert(g.has_hidden_safe_cell());
    }
}

/// Revealing the same cell a second time changes nothing: the grid after
/// two reveals of `(x, y)` is the grid after one.
pub proof fn lemma_reveal_idempotent(g0: Mines, g1: Mines, g2: Mines, x: int, y: int)
    requires
        reveal_rel(g0, g1, x, y),
        reveal_rel(g1, g2, x, y),
    ensures
        g2.width == g1.width,
        g2.height == g1.height,
        g2.generated == g1.generated,
        g2.state@ == g1.state@,
{
    if g0.spec_status() != Status::Unfinished {
        assert(g1 == g0);
    } else if g1.spec_status() != Status::Unfinished {
        assert(g2 == g1);
    } else {
        assert forall|i: int| 0 <= i < g1.state@.len() implies !reached_idx(g1, x, y, i) by {
            if reached_idx(g1, x, y, i) {
                let (px, py) = choose|px: int, py: int|
                    g1.present(px, py) && g1.spec_idx(px, py) == i && #[trigger] fill_reaches(
                        g1,
                        x,
                        y,
                        px,
                        py,
                    );
                let n = choose|n: nat| reach_n(g1, x, y, px, py, n);
                lemma_reach_start(g1, x, y, px, py, n);
                assert(g0.present(x, y));
                lemma_idx_bound(g0.width as int, g0.height as int, x, y);
                let i0 = g0.spec_idx(x, y);
                if g0.revealed_at(x, y) {
                    assert(g1.state@[i0] == g0.state@[i0] || g1.state@[i0] == reveal_cell(
                        g0.state@[i0],
                    ));
                    assert(g1.revealed_at(x, y));
                } else {
                    assert(reach_n(g0, x, y, x, y, 0));
                    assert(fill_reaches(g0, x, y, x, y));
                    assert(reached_idx(g0, x, y, i0));
                    assert(g1.state@[i0] == reveal_cell(g0.state@[i0]));
                    assert(g1.revealed_at(x, y));
                }
                assert(false);
            }
        };
        assert(g2.state@ =~= g1.state@);
    }
}

/// Uncovering a stored bomb while the game is running loses it: the next
/// status query reports `GameOver`.
pub proof fn lemma_reveal_bomb_loses(g0: Mines, g1: Mines, x: int, y: int)
    requires
        reveal_rel(g0, g1, x, y),
        g0.spec_status() == Status::Unfinished,
        g0.present(x, y),
        g0.cell(x, y).bomb,
    ensures
        g1.spec_status() == Status::GameOver,
{
    lemma_idx_bound(g0.width as int, g0.height as int, x, y);
    let i = g0.spec_idx(x, y);
    if g0.revealed_at(x, y) {
        assert(g0.has_revealed_bomb());
        assert(false);
    } else {
        assert(reach_n(g0, x, y, x, y, 0));
        assert(fill_reaches(g0, x, y, x, y));
        assert(reached_idx(g0, x, y, i));
        assert(g1.state@[i] == reveal_cell(g0.state@[i]));
        assert(g1.state@[i].bomb && g1.state@[i].status == CellStatus::REVEAL);
        assert(g1.has_revealed_bomb());
    }
}

/// On a grid whose neighbor counts are consistent, the flood fill only ever
/// reaches bomb-free cells beyond its starting point.
proof fn lemma_reach_avoids_bombs(g: Mines, sx: int, sy: int, px: int, py: int, n: nat)
    requires
        forall|qx: int, qy: int|
            #[trigger] g.present(qx, qy) ==> g.cell(qx, qy).surrounds == neighbor_bomb_count(
                g,
                qx,
                qy,
            ),
        g.present(sx, sy) ==> !g.cell(sx, sy).bomb,
        reach_n(g, sx, sy, px, py, n),
    ensures
        !g.cell(px, py).bomb,
{
    if px == sx && py == sy {
    } else {
        let (qx, qy) = choose|qx: int, qy: int|
            reach_n(g, sx, sy, qx, qy, (n - 1) as nat) && #[trigger] g.spreads(qx, qy)
                && crate::grid::adjacent(qx, qy, px, py);
        assert(neighbor_bomb_count(g, qx, qy) == 0);
        assert(bomb_ind(g, px, py) == 0);
    }
}

/// Revealing a bomb-free cell of a grid whose neighbor counts are consistent
/// - any grid `generate` hands back - cannot lose the game: the flood fill
/// stays clear of every bomb.
pub proof fn lemma_safe_reveal_never_loses(g0: Mines, g1: Mines, x: int, y: int)
    requires
        reveal_rel(g0, g1, x, y),
        g0.spec_status() == Status::Unfinished,
        forall|qx: int, qy: int|
            #[trigger] g0.present(qx, qy) ==> g0.cell(qx, qy).surrounds == neighbor_bomb_count(
                g0,
                qx,
                qy,
            ),
        g0.present(x, y) ==> !g0.cell(x, y).bomb,
    ensures
        g1.spec_status() != Status::GameOver,
{
    assert forall|i: int|
        0 <= i < g1.state@.len() implies !((#[trigger] g1.state@[i]).bomb && g1.state@[i].status
        == CellStatus::REVEAL) by {
        if g1.state@[i].bomb && g1.state@[i].status == CellStatus::REVEAL {
            if g1.state@[i] == g0.state@[i] {
                assert(g0.has_revealed_bomb());
            } else {
                assert(reached_idx(g0, x, y, i));
                let (px, py) = choose|px: int, py: int|
                    g0.present(px, py) && g0.spec_idx(px, py) == i && #[trigger] fill_reaches(
                        g0,
                        x,
                        y,
                        px,
                        py,
                    );
                let n = choose|n: nat| reach_n(g0, x, y, px, py, n);
                lemma_reach_avoids_bombs(g0, x, y, px, py, n);
            }
            assert(false);
        }
    };
    assert(!g1.has_revealed_bomb());
}

/// A grid whose safe cells are all uncovered while its bombs are all still
/// covered reports a win.
pub proof fn lemma_all_safe_revealed_wins(g: Mines)
    requires
        forall|i: int|
            0 <= i < g.state@.len() ==> !(#[trigger] g.state@[i]).bomb ==> g.state@[i].status
                == CellStatus::REVEAL,
        forall|i: int|
            0 <= i < g.state@.len() ==> (#[trigger] g.state@[i]).bomb ==> g.state@[i].status
                != CellStatus::REVEAL,
    ensures
        g.spec_status() == Status::Win,
{
}

} // verus!
