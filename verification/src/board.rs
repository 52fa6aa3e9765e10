//! The board: the map with the player and the crates on top, together with
//! the movement, win and reset rules.

use vstd::pervasive::VecAdditionalExecFns;
use vstd::prelude::*;

use crate::map::{CellKind, Grid, GridModel};
use crate::movable::{dir_step, Crate, Direction};

verus! {

/// An item found on top of a cell.
#[derive(Clone, Copy, Debug, PartialEq, Eq)]
pub enum MovableItem {
    /// The player.
    Player,
    /// The crate at this index of the board's crate sequence.
    Crate(usize),
}

/// What one board cell shows: an optional occupant on top of the terrain.
pub struct BoardElem(pub Option<MovableItem>, pub CellKind);

/// Index of the first element of `crates` equal to `p`.
pub open spec fn find_crate(crates: Seq<(u32, u32)>, p: (u32, u32)) -> Option<int>
    decreases crates.len(),
{
    if crates.len() == 0 {
        None
    } else if crates[0] == p {
        Some(0int)
    } else {
        match find_crate(crates.drop_first(), p) {
            Some(k) => Some(k + 1),
            None => None,
        }
    }
}

/// What `find_crate` yields: the first index holding `p`, or `None` exactly
/// when no crate sits at `p`.
pub proof fn lemma_find_crate(crates: Seq<(u32, u32)>, p: (u32, u32))
    ensures
        match find_crate(crates, p) {
            Some(k) => 0 <= k < crates.len() && crates[k] == p && (forall|m: int|
                0 <= m < k ==> crates[m] != p),
            None => forall|m: int| 0 <= m < crates.len() ==> crates[m] != p,
        },
    decreases crates.len(),
{
    if crates.len() > 0 && crates[0] != p {
        let rest = crates.drop_first();
        lemma_find_crate(rest, p);
        match find_crate(crates, p) {
            Some(k) => {
                assert(crates[k] == rest[k - 1]);
                assert forall|m: int| 0 <= m < k implies crates[m] != p by {
                    if m > 0 {
                        assert(crates[m] == rest[m - 1]);
                    }
                }
            },
            None => {
                assert forall|m: int| 0 <= m < crates.len() implies crates[m] != p by {
                    if m > 0 {
                        assert(crates[m] == rest[m - 1]);
                    }
                }
            },
        }
    }
}

/// `find_crate` yields exactly the first match.
pub proof fn lemma_find_crate_witness(crates: Seq<(u32, u32)>, p: (u32, u32), k: int)
    requires
        0 <= k < crates.len(),
        crates[k] == p,
        forall|m: int| 0 <= m < k ==> crates[m] != p,
    ensures
        find_crate(crates, p) == Some(k),
    decreases crates.len(),
{
    if k > 0 {
        lemma_find_crate_witness(crates.drop_first(), p, k - 1);
    }
}

/// `find_crate` yields `None` when no element matches.
pub proof fn lemma_find_crate_none(crates: Seq<(u32, u32)>, p: (u32, u32))
    requires
        forall|m: int| 0 <= m < crates.len() ==> crates[m] != p,
    ensures
        find_crate(crates, p) == None::<int>,
    decreases crates.len(),
{
    if crates.len() > 0 {
        lemma_find_crate_none(crates.drop_first(), p);
    }
}

/// Mathematical model of a board: the grid, the player, the crate positions
/// in their stable order, and the saved original layout.
#[verifier::ext_equal]
pub struct BoardModel {
    pub grid: GridModel,
    pub player: (u32, u32),
    pub crates: Seq<(u32, u32)>,
    pub original_player: (u32, u32),
    pub original_crates: Seq<(u32, u32)>,
}

impl BoardModel {
    /// The terrain cell under position `p`.
    pub open spec fn cell_at(self, p: (u32, u32)) -> CellKind {
        self.grid.cell(p.0 as int, p.1 as int)
    }

    /// No crate sits at `p`.
    pub open spec fn crate_free(self, p: (u32, u32)) -> bool {
        forall|k: int| 0 <= k < self.crates.len() ==> self.crates[k] != p
    }

    /// The board invariants: no two crates share a cell, no crate sits under
    /// the player, and the player and every crate rest on crossable ground.
    pub open spec fn inv(self) -> bool {
        &&& forall|k: int, l: int|
            0 <= k < l < self.crates.len() ==> self.crates[k] != self.crates[l]
        &&& self.crate_free(self.player)
        &&& self.cell_at(self.player).spec_is_crossable()
        &&& forall|k: int|
            0 <= k < self.crates.len() ==> self.cell_at(
                #[trigger] self.crates[k],
            ).spec_is_crossable()
    }

    /// Every crate rests on a `Target` cell.
    pub open spec fn won(self) -> bool {
        forall|k: int| 0 <= k < self.crates.len() ==> self.cell_at(#[trigger] self.crates[k]) is Target
    }

    /// The state a reset returns to: the player and the crates take their
    /// original places again; the grid and the saved layout are untouched.
    pub open spec fn reset_state(self) -> BoardModel {
        BoardModel { player: self.original_player, crates: self.original_crates, ..self }
    }

    /// The saved original layout satisfies the board invariants.
    pub open spec fn original_inv(self) -> bool {
        self.reset_state().inv()
    }

    /// One move attempt in direction `d`: the resulting state paired with the
    /// reported outcome. `None` stands for a blocked move (nothing changes),
    /// `Some(None)` for a plain step, `Some(Some(k))` for a step that pushed
    /// crate `k` one cell further. A push succeeds only when the crate's
    /// landing cell is crossable and no crate sits on it.
    pub open spec fn move_result(self, d: Direction) -> (BoardModel, Option<Option<usize>>) {
        let np = dir_step(d, self.player);
        match find_crate(self.crates, np) {
            Some(k) => {
                let nc = dir_step(d, np);
                if self.cell_at(nc).spec_is_crossable() && find_crate(self.crates, nc) is None {
                    (
                        BoardModel { player: np, crates: self.crates.update(k, nc), ..self },
                        Some(Some(k as usize)),
                    )
                } else {
                    (self, None)
                }
            },
            None => {
                if self.cell_at(np).spec_is_crossable() {
                    (BoardModel { player: np, ..self }, Some(None))
                } else {
                    (self, None)
                }
            },
        }
    }

    /// Who occupies position `p`: the player, else the first crate there,
    /// else nobody.
    pub open spec fn occupant(self, p: (u32, u32)) -> Option<MovableItem> {
        if self.player == p {
            Some(MovableItem::Player)
        } else {
            match find_crate(self.crates, p) {
                Some(k) => Some(MovableItem::Crate(k as usize)),
                None => None,
            }
        }
    }
}

/// Any single move keeps the board invariants: the crates stay pairwise
/// distinct, the player never shares a cell with a crate, and the player and
/// every crate stay on crossable ground.
pub proof fn lemma_move_preserves_inv(m: BoardModel, d: Direction)
    requires
        m.inv(),
    ensures
        m.move_result(d).0.inv(),
{
    let np = dir_step(d, m.player);
    lemma_find_crate(m.crates, np);
    match find_crate(m.crates, np) {
        Some(k) => {
            let nc = dir_step(d, np);
            lemma_find_crate(m.crates, nc);
            if m.cell_at(nc).spec_is_crossable() && find_crate(m.crates, nc) is None {
                let m2 = m.move_result(d).0;
                assert(m.crates[k] == np);
                assert(nc != np);
                assert forall|a: int, b: int|
                    0 <= a < b < m2.crates.len() implies m2.crates[a] != m2.crates[b] by {
                    assert(m.crates[a] != m.crates[b]);
                }
                assert forall|x: int| 0 <= x < m2.crates.len() implies m2.crates[x] != np by {
                    if x != k {
                        if x < k {
                            assert(m.crates[x] != m.crates[k]);
                        } else {
                            assert(m.crates[k] != m.crates[x]);
                        }
                    }
                }
                assert(m.cell_at(m.crates[k]).spec_is_crossable());
            }
        },
        None => {},
    }
}

/// Any crate standing off a target defeats the win condition: a board one of
/// whose crates sits on a cell other than `Target` has not won.
pub proof fn lemma_off_target_crate_defeats_win(m: BoardModel, k: int)
    requires
        0 <= k < m.crates.len(),
        !(m.cell_at(m.crates[k]) is Target),
    ensures
        !m.won(),
{
}

/// Resetting twice yields exactly the state after a single reset.
pub proof fn lemma_reset_idempotent(m: BoardModel)
    ensures
        m.reset_state().reset_state() == m.reset_state(),
{
    assert(m.reset_state().reset_state() =~= m.reset_state());
}

/// A move never touches the saved original layout: whatever the move did,
/// the state a reset would produce is unchanged, and with it the original
/// layout's invariants.
pub proof fn lemma_move_keeps_original(m: BoardModel, d: Direction)
    ensures
        m.move_result(d).0.reset_state() == m.reset_state(),
        m.original_inv() ==> m.move_result(d).0.original_inv(),
{
    assert(m.move_result(d).0.reset_state() =~= m.reset_state());
}

/// A copy of a crate vector (a crate is a plain pair of coordinates).
fn clone_crates(crates: &Vec<Crate>) -> (r: Vec<Crate>)
    ensures
        r@ == crates@,
{
    let mut r: Vec<Crate> = Vec::new();
    let mut n: usize = 0;
    while n < crates.len()
        invariant
            n <= crates.len(),
            r@ == crates@.take(n as int),
        decreases crates.len() - n,
    {
        proof {
            assert(crates@.take(n + 1 as int) =~= crates@.take(n as int).push(crates@[n as int]));
        }
        r.push(crates[n]);
        n += 1;
    }
    proof {
        assert(crates@.take(crates@.len() as int) =~= crates@);
    }
    r
}

/// The full game state: a map with the player and the crates on top, plus
/// the saved original layout that `reset` returns to.
pub struct Board {
    map: Grid,
    player: (u32, u32),
    crates: Vec<Crate>,
    original_player: (u32, u32),
    original_crates: Vec<Crate>,
}

impl View for Board {
    type V = BoardModel;

    closed spec fn view(&self) -> BoardModel {
        BoardModel {
            grid: self.map@,
            player: self.player,
            crates: self.crates@.map_values(|c: Crate| c@),
            original_player: self.original_player,
            original_crates: self.original_crates@.map_values(|c: Crate| c@),
        }
    }
}

impl Board {
    /// Assembles a board from a map, the player's start position and the
    /// crates in their stable order. The given layout is also saved as the
    /// original layout that `reset` returns to.
    pub fn new(map: Grid, player: (u32, u32), crates: Vec<Crate>) -> (r: Board)
        ensures
            r@.grid == map@,
            r@.player == player,
            r@.crates == crates@.map_values(|c: Crate| c@),
            r@.original_player == player,
            r@.original_crates == r@.crates,
    {
        let original_crates = clone_crates(&crates);
        let r = Board { map, player, crates, original_player: player, original_crates };
        proof {
            assert(r@.original_crates =~= r@.crates);
        }
        r
    }

    /// What sits at `(i, j)`: the terrain cell with the occupant on top, the
    /// player taking precedence over a crate.
    pub fn get(&self, i: u32, j: u32) -> (r: BoardElem)
        ensures
            r.1 == self@.grid.cell(i as int, j as int),
            r.0 == self@.occupant((i, j)),
    {
        let c = self.map.get(i, j);
        if self.player.0 == i && self.player.1 == j {
            BoardElem(Some(MovableItem::Player), c)
        } else {
            match self.find_crate_at((i, j)) {
                Some(k) => BoardElem(Some(MovableItem::Crate(k)), c),
                None => BoardElem(None, c),
            }
        }
    }

    /// The player's position as `(column, row)`.
    pub fn player(&self) -> (r: (u32, u32))
        ensures
            r == self@.player,
    {
        self.player
    }

    /// The crates in their stable order.
    pub fn crates(&self) -> (r: &[Crate])
        ensures
            r@.map_values(|c: Crate| c@) == self@.crates,
    {
        self.crates.as_slice()
    }

    /// Width of the board's map.
    pub fn width(&self) -> (r: u32)
        ensures
            r == self@.grid.width,
    {
        self.map.width()
    }

    /// Height of the board's map.
    pub fn height(&self) -> (r: u32)
        ensures
            r == self@.grid.height,
    {
        self.map.height()
    }

    /// Index of the first crate sitting at `p`, if any.
    fn find_crate_at(&self, p: (u32, u32)) -> (r: Option<usize>)
        ensures
            match r {
                Some(n) => find_crate(self@.crates, p) == Some(n as int) && n
                    < self@.crates.len(),
                None => find_crate(self@.crates, p) == None::<int>,
            },
    {
        let mut n: usize = 0;
        while n < self.crates.len()
            invariant
                n <= self.crates.len(),
                self@.crates.len() == self.crates@.len(),
                forall|m: int| 0 <= m < n ==> self@.crates[m] != p,
        decreases self.crates.len() - n,
        {
            let c = self.crates[n].pos();
            if c.0 == p.0 && c.1 == p.1 {
                proof {
                    assert(self@.crates[n as int] == p);
                    lemma_find_crate_witness(self@.crates, p, n as int);
                }
                return Some(n);
            }
            n += 1;
        }
        proof {
            lemma_find_crate_none(self@.crates, p);
        }
        None
    }

    /// Attempts to move the player one step in `dir`. When a crate stands on
    /// the stepped-to cell, the move becomes a push: it succeeds only when
    /// the crate's landing cell is crossable and free of crates. A blocked
    /// move changes nothing. The map and the saved original layout never
    /// change, and a board satisfying the invariants still satisfies them
    /// afterwards.
    pub fn do_move_player(&mut self, dir: Direction) -> (r: Option<Option<usize>>)
        ensures
            final (self)@ == old(self)@.move_result(dir).0,
            r == old(self)@.move_result(dir).1,
            old(self)@.inv() ==> final (self)@.inv(),
            old(self)@.original_inv() ==> final (self)@.original_inv(),
    {
        proof {
            if old(self)@.inv() {
                lemma_move_preserves_inv(old(self)@, dir);
            }
            lemma_move_keeps_original(old(self)@, dir);
        }
        let new_player = dir.to_coords(self.player.0, self.player.1);
        match self.find_crate_at(new_player) {
            Some(k) => {
                let new_crate = dir.to_coords(new_player.0, new_player.1);
                let landing = self.map.get(new_crate.0, new_crate.1);
                let blocked_by_crate = self.find_crate_at(new_crate).is_some();
                if landing.is_crossable() && !blocked_by_crate {
                    proof {
                        lemma_find_crate(old(self)@.crates, new_player);
                    }
                    self.crates.set(k, Crate::new(new_crate.0, new_crate.1));
                    self.player = new_player;
                    proof {
                        assert(self@.crates =~= old(self)@.crates.update(k as int, new_crate));
                        assert(self@ =~= old(self)@.move_result(dir).0);
                    }
                    Some(Some(k))
                } else {
                    None
                }
            },
            None => {
                let under = self.map.get(new_player.0, new_player.1);
                if under.is_crossable() {
                    self.player = new_player;
                    proof {
                        assert(self@ =~= old(self)@.move_result(dir).0);
                    }
                    Some(None)
                } else {
                    None
                }
            },
        }
    }

    /// `true` exactly when every crate rests on a `Target` cell.
    pub fn has_won(&self) -> (r: bool)
        ensures
            r == self@.won(),
    {
        let mut n: usize = 0;
        while n < self.crates.len()
            invariant
                n <= self.crates.len(),
                self@.crates.len() == self.crates@.len(),
                forall|m: int|
                    0 <= m < n ==> self@.cell_at(#[trigger] self@.crates[m]) is Target,
            decreases self.crates.len() - n,
        {
            let c = self.crates[n];
            if !c.is_placed(self) {
                proof {
                    assert(!(self@.cell_at(self@.crates[n as int]) is Target));
                }
                return false;
            }
            n += 1;
        }
        true
    }

    /// Returns the player and the crates to the saved original layout. The
    /// map and the saved layout itself stay untouched, so resetting twice is
    /// the same as resetting once. A board whose original layout satisfies
    /// the invariants satisfies them after the reset.
    pub fn reset(&mut self)
        ensures
            final (self)@ == old(self)@.reset_state(),
            old(self)@.original_inv() ==> final (self)@.inv() && final (self)@.original_inv(),
    {
        self.player = self.original_player;
        self.crates = clone_crates(&self.original_crates);
        proof {
            assert(self@ =~= old(self)@.reset_state());
            lemma_reset_idempotent(old(self)@);
        }
    }
}

} // verus!
