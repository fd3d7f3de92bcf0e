use std::collections::BTreeMap;
use vstd::prelude::*;

use crate::consts::{FIELD_SIDE_LIMIT, FIELD_SIZE_MAX, FIELD_SIZE_MIN, MAX_BOM, MAX_OIL, MIN_BOM, MIN_OIL};
use crate::gamemap::{Coord, Field};
use crate::random;
use crate::text::{dec, line2, line3, push_line3, push_nat, string_from_chars};

verus! {

/// What a player does in one turn.
#[derive(Clone, Copy, Debug, Eq, PartialEq, Structural)]
pub enum Action {
    /// Step in one of four directions (0: up, 1: left, 2: right, 3: down); any other number stays.
    Move(usize),
    /// Pick up the safe bomb lying under the player.
    PickBom,
    /// Drop the bomb the player carries on the empty cell under the player.
    DropBom,
}

/// A bomb on the field.
#[derive(Clone, Copy, Debug, Eq, PartialEq)]
pub enum BomCat {
    /// Lying about, with its blast distance.
    Safe(i32),
    /// Dropped and armed: its blast distance and the player who dropped it.
    Ready((i32, usize)),
}

/// What a cell of the field holds.
#[derive(Clone, Copy, Debug, Eq, PartialEq)]
pub enum FieldState {
    Bom(BomCat),
    Oil(i32),
    Empty,
}

/// A player: position, oil gathered, the bomb carried (its blast distance), and whether alive.
#[derive(Clone, Copy, Debug)]
pub struct Player {
    pub cd: Coord,
    pub galon: i32,
    pub bom: Option<i32>,
    pub is_alive: bool,
}

impl Player {
    pub fn new(cd: Coord, g: i32) -> (p: Player)
        ensures
            p == (Player { cd: cd, galon: g, bom: None, is_alive: true }),
    {
        Player { cd: cd, galon: g, bom: None, is_alive: true }
    }
}

/// The step that `Action::Move(id)` makes, for `id < 4`.
pub open spec fn move_step(id: int) -> Coord {
    if id == 0 {
        Coord { x: 0, y: -1i32 }
    } else if id == 1 {
        Coord { x: -1i32, y: 0 }
    } else if id == 2 {
        Coord { x: 1, y: 0 }
    } else if id == 3 {
        Coord { x: 0, y: 1 }
    } else {
        Coord { x: 0, y: 0 }
    }
}

/// The steps of the four directions, and staying put.
fn moves(id: usize) -> (c: Coord)
    requires
        id < 5,
    ensures
        c == move_step(id as int),
{
    if id == 0 {
        Coord::new(0, -1)
    } else if id == 1 {
        Coord::new(-1, 0)
    } else if id == 2 {
        Coord::new(1, 0)
    } else if id == 3 {
        Coord::new(0, 1)
    } else {
        Coord::new(0, 0)
    }
}

/// Whether `cd` lies on a square field of side `s` (the side compared as `i32`).
fn cd_ok(cd: Coord, s: usize) -> (b: bool)
    ensures
        b == (cd.x >= 0 && cd.y >= 0 && cd.x < (s as i32) && cd.y < (s as i32)),
        s <= i32::MAX ==> (b == (0 <= cd.x < s && 0 <= cd.y < s)),
{
    cd.x >= 0 && cd.y >= 0 && cd.x < s as i32 && cd.y < s as i32
}

/// A blast distance that bombs are made with.
pub open spec fn bom_dist_ok(d: i32) -> bool {
    MIN_BOM <= d < MAX_BOM
}

/// An amount that oil wells are made with.
pub open spec fn oil_ok(g: i32) -> bool {
    MIN_OIL <= g < MAX_OIL
}

/// A bomb as the game makes them: a valid distance, and an owner among the players.
pub open spec fn bom_ok(b: BomCat, player_num: usize) -> bool {
    match b {
        BomCat::Safe(d) => bom_dist_ok(d),
        BomCat::Ready((d, id)) => bom_dist_ok(d) && id < player_num,
    }
}

/// A cell content as the game makes them.
pub open spec fn cell_ok(c: FieldState, player_num: usize) -> bool {
    match c {
        FieldState::Bom(b) => bom_ok(b, player_num),
        FieldState::Oil(g) => oil_ok(g),
        FieldState::Empty => true,
    }
}

/// Whether a player carries a bomb, as a number.
pub open spec fn holds(p: Player) -> nat {
    if p.bom is Some {
        1
    } else {
        0
    }
}

/// How many players carry a bomb.
pub open spec fn holders(ps: Seq<Player>) -> nat
    decreases ps.len(),
{
    if ps.len() == 0 {
        0
    } else {
        holders(ps.drop_last()) + holds(ps.last())
    }
}

/// The map key of the cell at column `x`, row `y`.
pub open spec fn key(x: int, y: int) -> (i32, i32) {
    (x as i32, y as i32)
}

/// An explosion as the game makes them: centre on the field, `0 <= turn <= dist`, valid distance.
pub open spec fn explosion_ok(e: (Coord, i32, i32), size: usize) -> bool {
    &&& 0 <= e.0.x < size
    &&& 0 <= e.0.y < size
    &&& 0 <= e.2 <= e.1
    &&& bom_dist_ok(e.1)
}

/// The state of a game as plain values.
pub struct GameView {
    pub size: usize,
    pub player_num: usize,
    pub players: Seq<Player>,
    /// The oil wells, keyed by `(x, y)`.
    pub oils: Map<(i32, i32), i32>,
    /// The bombs on the field, keyed by `(x, y)`.
    pub boms: Map<(i32, i32), BomCat>,
    /// The cells, row by row: `cells[y][x]`.
    pub cells: Seq<Seq<FieldState>>,
    /// How many oil wells the field is kept stocked with.
    pub oil_num: usize,
    /// How many bombs the field and the players are kept stocked with.
    pub bom_num: usize,
    /// How many bombs have been picked up and not yet dropped.
    pub player_bom: usize,
    /// The explosions under way: centre, blast distance, turns elapsed.
    pub explosions: Seq<(Coord, i32, i32)>,
}

impl GameView {
    pub open spec fn in_grid(&self, x: int, y: int) -> bool {
        0 <= x < self.size && 0 <= y < self.size
    }

    pub open spec fn cell(&self, x: int, y: int) -> FieldState {
        self.cells[y][x]
    }

    /// The oil map lists exactly the oil wells of the field.
    pub open spec fn oils_mirror(&self) -> bool {
        &&& self.oils.dom().finite()
        &&& forall|k: (i32, i32)| #[trigger]
            self.oils.contains_key(k) ==> self.in_grid(k.0 as int, k.1 as int)
        &&& forall|x: int, y: int|
            self.in_grid(x, y) ==> {
                &&& (#[trigger] self.cell(x, y) is Oil) == self.oils.contains_key(key(x, y))
                &&& self.cell(x, y) is Oil ==> self.cell(x, y) == FieldState::Oil(
                    self.oils[key(x, y)],
                )
            }
    }

    /// The bomb map lists exactly the bombs of the field.
    pub open spec fn boms_mirror(&self) -> bool {
        &&& self.boms.dom().finite()
        &&& forall|k: (i32, i32)| #[trigger]
            self.boms.contains_key(k) ==> self.in_grid(k.0 as int, k.1 as int)
        &&& forall|x: int, y: int|
            self.in_grid(x, y) ==> {
                &&& (#[trigger] self.cell(x, y) is Bom) == self.boms.contains_key(key(x, y))
                &&& self.cell(x, y) is Bom ==> self.cell(x, y) == FieldState::Bom(
                    self.boms[key(x, y)],
                )
            }
    }

    /// The field: its side, its cells, and the two maps that mirror it.
    pub open spec fn board_ok(&self) -> bool {
        &&& 1 <= self.size <= FIELD_SIDE_LIMIT
        &&& self.cells.len() == self.size
        &&& forall|y: int| 0 <= y < self.size ==> (#[trigger] self.cells[y]).len() == self.size
        &&& forall|x: int, y: int|
            self.in_grid(x, y) ==> cell_ok(#[trigger] self.cell(x, y), self.player_num)
        &&& self.oils_mirror()
        &&& self.boms_mirror()
    }

    /// The players: one per number, each on the field, carrying only valid bombs.
    pub open spec fn players_ok(&self) -> bool {
        &&& self.players.len() == self.player_num
        &&& forall|i: int|
            0 <= i < self.player_num ==> {
                &&& self.in_grid((#[trigger] self.players[i]).cd.x as int, self.players[i].cd.y as int)
                &&& (self.players[i].bom matches Some(d) ==> bom_dist_ok(d))
            }
    }

    /// The stock counts: wells within their number; bombs on the field and picked up within
    /// theirs; and room on the field for the whole stock.
    pub open spec fn counts_ok(&self) -> bool {
        &&& stock_fits(self.size, self.oil_num, self.bom_num)
        &&& self.oils.len() <= self.oil_num
        &&& self.boms.len() + self.player_bom <= self.bom_num
        &&& holders(self.players) <= self.player_bom
    }

    /// The explosions under way are all valid.
    pub open spec fn explosions_ok(&self) -> bool {
        forall|k: int|
            0 <= k < self.explosions.len() ==> explosion_ok(
                #[trigger] self.explosions[k],
                self.size,
            )
    }

    /// What every state of a game satisfies.
    pub open spec fn inv(&self) -> bool {
        &&& self.board_ok()
        &&& self.players_ok()
        &&& self.counts_ok()
        &&& self.explosions_ok()
    }
}

/// The corner where player `i` starts on a field of side `size`.
pub open spec fn corner(i: int, size: int) -> Coord {
    Coord {
        x: (if i % 2 == 0 {
            0
        } else {
            size - 1
        }) as i32,
        y: (if i <= 1 {
            0
        } else {
            size - 1
        }) as i32,
    }
}

/// A fresh game: players in their corners, an empty field, nothing under way.
pub open spec fn initial_view(player_num: usize, size: usize, oil_num: usize, bom_num: usize) -> GameView {
    GameView {
        size: size,
        player_num: player_num,
        players: Seq::new(
            player_num as nat,
            |i: int| Player { cd: corner(i, size as int), galon: 0, bom: None, is_alive: true },
        ),
        oils: Map::empty(),
        boms: Map::empty(),
        cells: Seq::new(size as nat, |y: int| Seq::new(size as nat, |x: int| FieldState::Empty)),
        oil_num: oil_num,
        bom_num: bom_num,
        player_bom: 0,
        explosions: Seq::empty(),
    }
}

/// What a game can be made with: a side within the limit, and room on the field for the
/// stock of wells and bombs.
pub open spec fn stock_ok(size: usize, oil_num: usize, bom_num: usize) -> bool {
    &&& 1 <= size <= FIELD_SIDE_LIMIT
    &&& stock_fits(size, oil_num, bom_num)
}

/// The wells and bombs of the stock fit together on a field of side `size`.
#[verifier::opaque]
pub open spec fn stock_fits(size: usize, oil_num: usize, bom_num: usize) -> bool {
    oil_num + bom_num <= size * size
}

/// The draws a random game is made from: a side, a number of wells, a number of bombs.
pub open spec fn draws_ok(size: usize, oil_num: usize, bom_num: usize) -> bool {
    &&& FIELD_SIZE_MIN <= size < FIELD_SIZE_MAX
    &&& size <= oil_num < size * 2
    &&& size / 4 <= bom_num < size / 3
}

/// The cells of `v` with the cell at column `x`, row `y` set to `c`.
pub open spec fn with_cell(v: GameView, x: int, y: int, c: FieldState) -> Seq<Seq<FieldState>> {
    v.cells.update(y, v.cells[y].update(x, c))
}

/// Where a move of `p` by step `id` leads.
pub open spec fn move_target(p: Player, id: int) -> Coord {
    Coord { x: (p.cd.x + move_step(id).x) as i32, y: (p.cd.y + move_step(id).y) as i32 }
}

/// What action `ac` of player `pid` does to `v`, and whether it was accepted.
///
/// A move off the field, picking up where no safe bomb lies, and dropping without
/// a bomb or onto a cell that is not empty are refused and change nothing.
/// A move onto an oil well empties it into the player's tank.
pub open spec fn act_spec(v: GameView, pid: int, ac: Action) -> (GameView, bool) {
    let p = v.players[pid];
    let cur = p.cd;
    match ac {
        Action::Move(id) => {
            if id < 4 {
                let nxt = move_target(p, id as int);
                if !v.in_grid(nxt.x as int, nxt.y as int) {
                    (v, false)
                } else {
                    match v.cell(nxt.x as int, nxt.y as int) {
                        FieldState::Oil(g) => (
                            GameView {
                                players: v.players.update(
                                    pid,
                                    Player { cd: nxt, galon: (p.galon + g) as i32, ..p },
                                ),
                                oils: v.oils.remove(key(nxt.x as int, nxt.y as int)),
                                cells: with_cell(v, nxt.x as int, nxt.y as int, FieldState::Empty),
                                ..v
                            },
                            true,
                        ),
                        _ => (
                            GameView { players: v.players.update(pid, Player { cd: nxt, ..p }), ..v },
                            true,
                        ),
                    }
                }
            } else {
                (v, true)
            }
        },
        Action::PickBom => {
            match v.cell(cur.x as int, cur.y as int) {
                FieldState::Bom(BomCat::Safe(d)) => (
                    GameView {
                        player_bom: (v.player_bom + 1) as usize,
                        players: v.players.update(pid, Player { bom: Some(d), ..p }),
                        boms: v.boms.remove(key(cur.x as int, cur.y as int)),
                        cells: with_cell(v, cur.x as int, cur.y as int, FieldState::Empty),
                        ..v
                    },
                    true,
                ),
                _ => (v, false),
            }
        },
        Action::DropBom => {
            match (v.cell(cur.x as int, cur.y as int), p.bom) {
                (FieldState::Empty, Some(d)) => (
                    GameView {
                        player_bom: (v.player_bom - 1) as usize,
                        players: v.players.update(pid, Player { bom: None, ..p }),
                        boms: v.boms.insert(
                            key(cur.x as int, cur.y as int),
                            BomCat::Ready((d, pid as usize)),
                        ),
                        cells: with_cell(
                            v,
                            cur.x as int,
                            cur.y as int,
                            FieldState::Bom(BomCat::Ready((d, pid as usize))),
                        ),
                        ..v
                    },
                    true,
                ),
                _ => (v, false),
            }
        },
    }
}

/// Whether action `ac` of player `pid` keeps the player's oil within `i32`.
pub open spec fn act_fits(v: GameView, pid: int, ac: Action) -> bool {
    let p = v.players[pid];
    match ac {
        Action::Move(id) => {
            let nxt = move_target(p, id as int);
            (id < 4 && v.in_grid(nxt.x as int, nxt.y as int)) ==> match v.cell(
                nxt.x as int,
                nxt.y as int,
            ) {
                FieldState::Oil(g) => p.galon + g <= i32::MAX,
                _ => true,
            }
        },
        _ => true,
    }
}

/// The larger of `|dx|` and `|dy|`: the distance at which a blast reaches an offset.
pub open spec fn reach(dx: int, dy: int) -> int {
    let ax = if dx < 0 {
        -dx
    } else {
        dx
    };
    let ay = if dy < 0 {
        -dy
    } else {
        dy
    };
    if ax > ay {
        ax
    } else {
        ay
    }
}

/// Whether player `i` sets off the bomb at column `x`, row `y`: the bomb is armed by
/// another player, lies within 5 cells of player `i` across and down, and its blast
/// distance is at least its distance from the player.
pub open spec fn sets_off(v: GameView, i: int, x: int, y: int) -> bool {
    let p = v.players[i].cd;
    let dx = x - p.x;
    let dy = y - p.y;
    &&& -5 <= dx <= 5
    &&& -5 <= dy <= 5
    &&& v.in_grid(x, y)
    &&& match v.cell(x, y) {
        FieldState::Bom(BomCat::Ready((dist, id))) => id != i && dist >= reach(dx, dy),
        _ => false,
    }
}

/// Whether some player sets off the bomb at column `x`, row `y`.
pub open spec fn set_off(v: GameView, x: int, y: int) -> bool {
    exists|i: int| 0 <= i < v.player_num && #[trigger] sets_off(v, i, x, y)
}

/// The blast distance of the bomb in cell `c` (meaningful for bombs only).
pub open spec fn bom_dist(c: FieldState) -> i32 {
    match c {
        FieldState::Bom(BomCat::Safe(d)) => d,
        FieldState::Bom(BomCat::Ready((d, _))) => d,
        _ => 0,
    }
}

/// The place of the check "player `j` looks at column `x`, row `y`" in the order of the
/// blast check: players in turn, then offsets across, then down.
pub open spec fn check_rank(v: GameView, j: int, x: int, y: int) -> int {
    j * 121 + (x - v.players[j].cd.x + 5) * 11 + (y - v.players[j].cd.y + 5)
}

/// Whether `r` is the place of the first check that sets off the bomb at `(x, y)`.
pub open spec fn is_first_check(v: GameView, x: int, y: int, r: int) -> bool {
    &&& exists|j: int| 0 <= j < v.player_num && #[trigger] sets_off(v, j, x, y) && check_rank(v, j, x, y) == r
    &&& forall|j: int| 0 <= j < v.player_num && #[trigger] sets_off(v, j, x, y) ==> r <= check_rank(v, j, x, y)
}

/// The place of the first check that sets off the bomb at `(x, y)`.
pub open spec fn first_check(v: GameView, x: int, y: int) -> int {
    choose|r: int| is_first_check(v, x, y, r)
}

/// `e` lists each bomb of `v` that some player sets off, once, as a new explosion:
/// its centre, its blast distance, and no turn elapsed; in the order of the first check
/// that sets each off.
pub open spec fn blasts(v: GameView, e: Seq<(Coord, i32, i32)>) -> bool {
    &&& forall|j: int|
        0 <= j < e.len() ==> {
            &&& set_off(v, (#[trigger] e[j]).0.x as int, e[j].0.y as int)
            &&& e[j].1 == bom_dist(v.cell(e[j].0.x as int, e[j].0.y as int))
            &&& e[j].2 == 0
        }
    &&& forall|j: int, k: int| 0 <= j < k < e.len() ==> (#[trigger] e[j]).0 != (#[trigger] e[k]).0
    &&& forall|j: int, k: int|
        0 <= j < k < e.len() ==> first_check(v, (#[trigger] e[j]).0.x as int, e[j].0.y as int)
            < first_check(v, (#[trigger] e[k]).0.x as int, e[k].0.y as int)
    &&& forall|x: int, y: int|
        v.in_grid(x, y) && #[trigger] set_off(v, x, y) ==> exists|j: int|
            0 <= j < e.len() && (#[trigger] e[j]).0 == Coord { x: x as i32, y: y as i32 }
}

/// What the blast check of a turn does: every bomb that some player sets off leaves the
/// field and starts an explosion; nothing else changes. `res` tells whether any went off.
pub open spec fn detonated(v: GameView, w: GameView, res: bool) -> bool {
    &&& w.size == v.size
    &&& w.player_num == v.player_num
    &&& w.players == v.players
    &&& w.oils == v.oils
    &&& w.oil_num == v.oil_num
    &&& w.bom_num == v.bom_num
    &&& w.player_bom == v.player_bom
    &&& forall|x: int, y: int|
        v.in_grid(x, y) ==> #[trigger] w.cell(x, y) == (if set_off(v, x, y) {
            FieldState::Empty
        } else {
            v.cell(x, y)
        })
    &&& w.explosions.len() >= v.explosions.len()
    &&& w.explosions.subrange(0, v.explosions.len() as int) == v.explosions
    &&& blasts(v, w.explosions.skip(v.explosions.len() as int))
    &&& res == (w.explosions.len() > v.explosions.len())
}

/// No cell of the field is empty.
pub open spec fn no_empty(v: GameView) -> bool {
    forall|x: int, y: int| v.in_grid(x, y) ==> !(#[trigger] v.cell(x, y) is Empty)
}

/// `b` is `a` with oil wells put on some cells that were empty in `a`, until the field
/// holds as many wells as it is kept stocked with.
/// Where the wells go, and how much each holds within the range wells are made with,
/// is left to chance. The well map of `b` lists exactly its wells, and a field already
/// stocked is left as it is.
pub open spec fn oil_refilled(a: GameView, b: GameView) -> bool {
    &&& b == GameView { oils: b.oils, cells: b.cells, ..a }
    &&& b.oils_mirror()
    &&& (a.oils.len() >= a.oil_num ==> b == a)
    &&& forall|x: int, y: int|
        a.in_grid(x, y) ==> if a.cell(x, y) is Empty {
            #[trigger] b.cell(x, y) is Empty || (b.cell(x, y) matches FieldState::Oil(g) && oil_ok(g))
        } else {
            b.cell(x, y) == a.cell(x, y)
        }
    &&& b.oils.len() == b.oil_num
}

/// `b` is `a` with safe bombs put on some cells that were empty in `a`, until the bombs on
/// the field and those picked up make the number the game is kept stocked with. Where the bombs go, and their blast distances within the range bombs are
/// made with, is left to chance. The bomb map of `b` lists exactly its bombs, and a stock
/// already full is left as it is.
pub open spec fn bom_refilled(a: GameView, b: GameView) -> bool {
    &&& b == GameView { boms: b.boms, cells: b.cells, ..a }
    &&& b.boms_mirror()
    &&& (a.boms.len() + a.player_bom >= a.bom_num ==> b == a)
    &&& forall|x: int, y: int|
        a.in_grid(x, y) ==> if a.cell(x, y) is Empty {
            #[trigger] b.cell(x, y) is Empty || (b.cell(x, y) matches FieldState::Bom(BomCat::Safe(d)) && bom_dist_ok(d))
        } else {
            b.cell(x, y) == a.cell(x, y)
        }
    &&& b.boms.len() + b.player_bom == b.bom_num
}

/// Whether player `i` empties the oil well it stands on: there is one, and no player
/// before it stands on the same cell.
pub open spec fn picks(v: GameView, i: int) -> bool {
    &&& v.cell(v.players[i].cd.x as int, v.players[i].cd.y as int) is Oil
    &&& forall|j: int| 0 <= j < i ==> (#[trigger] v.players[j]).cd != v.players[i].cd
}

/// The oil in cell `c` (meaningful for wells only).
pub open spec fn oil_in(c: FieldState) -> i32 {
    match c {
        FieldState::Oil(g) => g,
        _ => 0,
    }
}

/// Whether some player stands on column `x`, row `y`.
pub open spec fn occupied(v: GameView, x: int, y: int) -> bool {
    exists|i: int|
        0 <= i < v.player_num && (#[trigger] v.players[i]).cd == Coord { x: x as i32, y: y as i32 }
}

/// The players' oil fits in `i32` whatever they empty into it.
pub open spec fn collect_fits(v: GameView) -> bool {
    forall|i: int|
        0 <= i < v.player_num && #[trigger] picks(v, i) ==> v.players[i].galon + oil_in(
            v.cell(v.players[i].cd.x as int, v.players[i].cd.y as int),
        ) <= i32::MAX
}

/// The players, in turn, empty the oil wells they stand on into their tanks.
pub open spec fn collected(a: GameView, b: GameView) -> bool {
    &&& b == GameView { players: b.players, oils: b.oils, cells: b.cells, ..a }
    &&& b.players.len() == a.players.len()
    &&& forall|i: int|
        0 <= i < a.player_num ==> #[trigger] b.players[i] == (Player {
            galon: if picks(a, i) {
                (a.players[i].galon + oil_in(
                    a.cell(a.players[i].cd.x as int, a.players[i].cd.y as int),
                )) as i32
            } else {
                a.players[i].galon
            },
            ..a.players[i]
        })
    &&& forall|x: int, y: int|
        a.in_grid(x, y) ==> #[trigger] b.cell(x, y) == (if a.cell(x, y) is Oil && occupied(a, x, y) {
            FieldState::Empty
        } else {
            a.cell(x, y)
        })
}

/// Whether no player before player `i` stands on its cell.
pub open spec fn first_on_cell(v: GameView, i: int) -> bool {
    forall|j: int| 0 <= j < i ==> (#[trigger] v.players[j]).cd != v.players[i].cd
}

/// Whether player `i`, if it is the one to empty a well under it this turn, has room for it.
pub open spec fn update_fits_at(v: GameView, i: int) -> bool {
    let p = v.players[i];
    let c = v.cell(p.cd.x as int, p.cd.y as int);
    match c {
        FieldState::Oil(g) => p.galon + g <= i32::MAX,
        _ => (v.oils.len() < v.oil_num && (c is Empty || set_off(v, p.cd.x as int, p.cd.y as int)))
            ==> p.galon + (MAX_OIL - 1) <= i32::MAX,
    }
}

/// Whether a turn of upkeep keeps every tank within `i32`, whatever the draws: each
/// player that would be the one to empty a well under it has room for it — for the well
/// already there, or, when the cell may be stocked this turn (it is empty or its bomb goes
/// off, and wells are missing), for the largest well there is.
pub open spec fn update_fits(v: GameView) -> bool {
    forall|i: int| 0 <= i < v.player_num && #[trigger] first_on_cell(v, i) ==> update_fits_at(v, i)
}

/// `b` is `a` with oil wells put on some cells that were empty in `a`.
spec fn oil_refill_progress(a: GameView, b: GameView) -> bool {
    &&& b == GameView { oils: b.oils, cells: b.cells, ..a }
    &&& (a.oils.len() >= a.oil_num ==> b == a)
    &&& forall|x: int, y: int|
        a.in_grid(x, y) ==> if a.cell(x, y) is Empty {
            #[trigger] b.cell(x, y) is Empty || (b.cell(x, y) matches FieldState::Oil(g) && oil_ok(g))
        } else {
            b.cell(x, y) == a.cell(x, y)
        }
}

/// `b` is `a` with safe bombs put on some cells that were empty in `a`.
spec fn bom_refill_progress(a: GameView, b: GameView) -> bool {
    &&& b == GameView { boms: b.boms, cells: b.cells, ..a }
    &&& (a.boms.len() + a.player_bom >= a.bom_num ==> b == a)
    &&& forall|x: int, y: int|
        a.in_grid(x, y) ==> if a.cell(x, y) is Empty {
            #[trigger] b.cell(x, y) is Empty || (b.cell(x, y) matches FieldState::Bom(BomCat::Safe(d)) && bom_dist_ok(d))
        } else {
            b.cell(x, y) == a.cell(x, y)
        }
}

/// Whether one of the first `i` players stands on column `x`, row `y`.
spec fn occupied_before(v: GameView, i: int, x: int, y: int) -> bool {
    exists|j: int| 0 <= j < i && (#[trigger] v.players[j]).cd == Coord { x: x as i32, y: y as i32 }
}

/// The first `i` players have emptied the wells they stand on into their tanks.
spec fn collect_progress(a: GameView, b: GameView, i: int) -> bool {
    &&& b == GameView { players: b.players, oils: b.oils, cells: b.cells, ..a }
    &&& b.players.len() == a.players.len()
    &&& forall|j: int|
        0 <= j < a.player_num ==> #[trigger] b.players[j] == (if j < i {
            Player {
                galon: if picks(a, j) {
                    (a.players[j].galon + oil_in(
                        a.cell(a.players[j].cd.x as int, a.players[j].cd.y as int),
                    )) as i32
                } else {
                    a.players[j].galon
                },
                ..a.players[j]
            }
        } else {
            a.players[j]
        })
    &&& forall|x: int, y: int|
        a.in_grid(x, y) ==> #[trigger] b.cell(x, y) == (if a.cell(x, y) is Oil && occupied_before(
            a,
            i,
            x,
            y,
        ) {
            FieldState::Empty
        } else {
            a.cell(x, y)
        })
}

/// One line per player: column, row, oil gathered.
pub open spec fn players_text(ps: Seq<Player>) -> Seq<char>
    decreases ps.len(),
{
    if ps.len() == 0 {
        Seq::empty()
    } else {
        players_text(ps.drop_last()) + line3(
            ps.last().cd.x as int,
            ps.last().cd.y as int,
            ps.last().galon as int,
        )
    }
}

/// The line of an oil well at `(x, y)` holding `c`: column, row, oil.
pub open spec fn oil_line(x: int, y: int, c: FieldState) -> Seq<char> {
    match c {
        FieldState::Oil(g) => line3(x, y, g as int),
        _ => Seq::empty(),
    }
}

/// The line of a bomb at `(x, y)`: column, row, owner (`-1` for a safe bomb).
pub open spec fn bom_line(x: int, y: int, c: FieldState) -> Seq<char> {
    match c {
        FieldState::Bom(BomCat::Safe(_)) => line3(x, y, -1),
        FieldState::Bom(BomCat::Ready((_, id))) => line3(x, y, (id as i32) as int),
        _ => Seq::empty(),
    }
}

/// The lines of the cells of column `x` in rows `0..n`, as `line` writes them.
pub open spec fn column_text(v: GameView, x: int, n: int, oil: bool) -> Seq<char>
    decreases n,
{
    if n <= 0 {
        Seq::empty()
    } else {
        column_text(v, x, n - 1, oil) + if oil {
            oil_line(x, n - 1, v.cell(x, n - 1))
        } else {
            bom_line(x, n - 1, v.cell(x, n - 1))
        }
    }
}

/// The lines of the cells of columns `0..n`, column by column, row by row: the order of
/// the cells' keys `(x, y)`.
pub open spec fn cells_text(v: GameView, n: int, oil: bool) -> Seq<char>
    decreases n,
{
    if n <= 0 {
        Seq::empty()
    } else {
        cells_text(v, n - 1, oil) + column_text(v, n - 1, v.size as int, oil)
    }
}

/// The text that tells an AI the state of the game, for player `pid`: the side; the number
/// of players and `pid`; a line per player; the number of wells and a line per well;
/// the number of bombs and a line per bomb; wells and bombs in the order of their keys.
pub open spec fn state_text(v: GameView, pid: int) -> Seq<char> {
    dec(v.size as int) + seq!['\n'] + line2(v.player_num as int, pid) + players_text(v.players)
        + dec(v.oils.len() as int) + seq!['\n'] + cells_text(v, v.size as int, true) + dec(
        v.boms.len() as int,
    ) + seq!['\n'] + cells_text(v, v.size as int, false)
}

/// The cells that column `dx` of a blast centred on `c` with radius `t` reaches, for the
/// first `m` rows `-t .. -t + m`, keeping those on a field of side `size`.
pub open spec fn blast_col(c: Coord, t: int, size: int, dx: int, m: int) -> Seq<Coord>
    decreases m,
{
    if m <= 0 {
        Seq::empty()
    } else {
        let x = c.x + dx;
        let y = c.y - t + m - 1;
        blast_col(c, t, size, dx, m - 1) + if 0 <= x < size && 0 <= y < size {
            seq![Coord { x: x as i32, y: y as i32 }]
        } else {
            Seq::empty()
        }
    }
}

/// The cells that the first `n` columns `-t .. -t + n` of a blast centred on `c` with
/// radius `t` reach, column by column, on a field of side `size`.
pub open spec fn blast_cols(c: Coord, t: int, size: int, n: int) -> Seq<Coord>
    decreases n,
{
    if n <= 0 {
        Seq::empty()
    } else {
        blast_cols(c, t, size, n - 1) + blast_col(c, t, size, -t + n - 1, 2 * t + 1)
    }
}

/// The cells that this turn of the explosions `es` reaches, explosion by explosion: each
/// reaches the square of radius `turn` around its centre.
pub open spec fn burn_seq(es: Seq<(Coord, i32, i32)>, size: int) -> Seq<Coord>
    decreases es.len(),
{
    if es.len() == 0 {
        Seq::empty()
    } else {
        let e = es.last();
        burn_seq(es.drop_last(), size) + blast_cols(e.0, e.2 as int, size, 2 * e.2 + 1)
    }
}

/// The cell `c` once for each of the first `n` players that stands on it.
pub open spec fn deaths_at(ps: Seq<Player>, c: Coord, n: int) -> Seq<Coord>
    decreases n,
{
    if n <= 0 {
        Seq::empty()
    } else {
        deaths_at(ps, c, n - 1) + if ps[n - 1].cd == c {
            seq![c]
        } else {
            Seq::empty()
        }
    }
}

/// For each reached cell in turn, the cell once for each player standing on it.
pub open spec fn deaths_seq(ps: Seq<Player>, cells: Seq<Coord>) -> Seq<Coord>
    decreases cells.len(),
{
    if cells.len() == 0 {
        Seq::empty()
    } else {
        deaths_seq(ps, cells.drop_last()) + deaths_at(ps, cells.last(), ps.len() as int)
    }
}

/// The explosions that go on to the next turn: those whose turn is short of their
/// distance, one turn older.
pub open spec fn next_explosions(es: Seq<(Coord, i32, i32)>) -> Seq<(Coord, i32, i32)>
    decreases es.len(),
{
    if es.len() == 0 {
        Seq::empty()
    } else {
        let e = es.last();
        next_explosions(es.drop_last()) + if e.1 > e.2 {
            seq![(e.0, e.1, (e.2 + 1) as i32)]
        } else {
            Seq::empty()
        }
    }
}

/// What one turn of the explosions does: every cell they reach loses its oil well, every
/// player standing there dies, and the explosions grow or end. `burned` lists the reached
/// cells, `deaths` a cell for each death, and `finished` whether the last explosion ended;
/// with no explosion under way nothing happens and `finished` is false.
pub open spec fn spread(v: GameView, w: GameView, r: BlastStep) -> bool {
    if v.explosions.len() == 0 {
        &&& w == v
        &&& r.burned@ == Seq::<Coord>::empty()
        &&& r.deaths@ == Seq::<Coord>::empty()
        &&& !r.finished
    } else {
        &&& r.burned@ == burn_seq(v.explosions, v.size as int)
        &&& r.deaths@ == deaths_seq(v.players, r.burned@)
        &&& w == GameView {
            players: w.players,
            oils: w.oils,
            cells: w.cells,
            explosions: next_explosions(v.explosions),
            ..v
        }
        &&& w.players.len() == v.players.len()
        &&& forall|i: int|
            0 <= i < v.player_num ==> #[trigger] w.players[i] == (Player {
                is_alive: v.players[i].is_alive && !r.burned@.contains(v.players[i].cd),
                ..v.players[i]
            })
        &&& forall|x: int, y: int|
            v.in_grid(x, y) ==> #[trigger] w.cell(x, y) == (if v.cell(x, y) is Oil
                && r.burned@.contains(Coord { x: x as i32, y: y as i32 }) {
                FieldState::Empty
            } else {
                v.cell(x, y)
            })
        &&& r.finished == (w.explosions.len() == 0)
    }
}

/// The explosions of a turn have reached the cells `burned` so far.
spec fn spread_state(v: GameView, w: GameView, burned: Seq<Coord>, deaths: Seq<Coord>) -> bool {
    &&& w.inv()
    &&& w == GameView { players: w.players, oils: w.oils, cells: w.cells, ..v }
    &&& w.players.len() == v.players.len()
    &&& deaths == deaths_seq(v.players, burned)
    &&& forall|k: int| 0 <= k < burned.len() ==> v.in_grid((#[trigger] burned[k]).x as int, burned[k].y as int)
    &&& forall|i: int|
        0 <= i < v.player_num ==> #[trigger] w.players[i] == (Player {
            is_alive: v.players[i].is_alive && !burned.contains(v.players[i].cd),
            ..v.players[i]
        })
    &&& forall|x: int, y: int|
        v.in_grid(x, y) ==> #[trigger] w.cell(x, y) == (if v.cell(x, y) is Oil && burned.contains(
            Coord { x: x as i32, y: y as i32 },
        ) {
            FieldState::Empty
        } else {
            v.cell(x, y)
        })
}

/// Whether the blast check has already set off the bomb at `(x, y)` after `s` checks.
spec fn done_by(v: GameView, s: int, x: int, y: int) -> bool {
    exists|j: int| 0 <= j < v.player_num && #[trigger] sets_off(v, j, x, y) && check_rank(v, j, x, y) < s
}

/// The blast check after `s` checks: the bombs set off so far have left `w` and are listed
/// once each at the end of its explosions.
spec fn detonation_progress(v: GameView, w: GameView, s: int, res: bool) -> bool {
    &&& w.inv()
    &&& w.size == v.size
    &&& w.player_num == v.player_num
    &&& w.players == v.players
    &&& w.oils == v.oils
    &&& w.oil_num == v.oil_num
    &&& w.bom_num == v.bom_num
    &&& w.player_bom == v.player_bom
    &&& forall|x: int, y: int|
        v.in_grid(x, y) ==> #[trigger] w.cell(x, y) == (if done_by(v, s, x, y) {
            FieldState::Empty
        } else {
            v.cell(x, y)
        })
    &&& w.explosions.len() >= v.explosions.len()
    &&& w.explosions.subrange(0, v.explosions.len() as int) == v.explosions
    &&& {
        let e = w.explosions.skip(v.explosions.len() as int);
        &&& forall|j: int|
            0 <= j < e.len() ==> {
                &&& done_by(v, s, (#[trigger] e[j]).0.x as int, e[j].0.y as int)
                &&& e[j].1 == bom_dist(v.cell(e[j].0.x as int, e[j].0.y as int))
                &&& e[j].2 == 0
            }
        &&& forall|j: int, k: int| 0 <= j < k < e.len() ==> (#[trigger] e[j]).0 != (#[trigger] e[k]).0
        &&& forall|j: int|
            0 <= j < e.len() ==> is_first_check(v, (#[trigger] e[j]).0.x as int, e[j].0.y as int, first_check(v, e[j].0.x as int, e[j].0.y as int))
                && first_check(v, e[j].0.x as int, e[j].0.y as int) < s
        &&& forall|j: int, k: int|
            0 <= j < k < e.len() ==> first_check(v, (#[trigger] e[j]).0.x as int, e[j].0.y as int)
                < first_check(v, (#[trigger] e[k]).0.x as int, e[k].0.y as int)
        &&& forall|x: int, y: int|
            v.in_grid(x, y) && #[trigger] done_by(v, s, x, y) ==> exists|j: int|
                0 <= j < e.len() && (#[trigger] e[j]).0 == Coord { x: x as i32, y: y as i32 }
    }
    &&& res == (w.explosions.len() > v.explosions.len())
}

/// What one turn of the explosions reached: the cells, in order; a cell for each death, in
/// order; whether the last explosion ended this turn.
#[derive(Debug)]
pub struct BlastStep {
    pub burned: Vec<Coord>,
    pub deaths: Vec<Coord>,
    pub finished: bool,
}

/// A game of bombs and oil wells on a square field.
#[derive(Debug)]
pub struct Game {
    pub size: usize,
    player_num: usize,
    player: Vec<Player>,
    oil_list: BTreeMap<(i32, i32), i32>,
    bom_list: BTreeMap<(i32, i32), BomCat>,
    field: Field<FieldState>,
    oil_num: usize,
    bom_num: usize,
    player_bom: usize,
    explosion_list: Vec<(Coord, i32, i32)>,
}

impl View for Game {
    type V = GameView;

    closed spec fn view(&self) -> GameView {
        GameView {
            size: self.size,
            player_num: self.player_num,
            players: self.player@,
            oils: self.oil_list@,
            boms: self.bom_list@,
            cells: self.field.cells(),
            oil_num: self.oil_num,
            bom_num: self.bom_num,
            player_bom: self.player_bom,
            explosions: self.explosion_list@,
        }
    }
}

impl Game {
    /// The game is in a state that its own operations reach.
    pub closed spec fn wf(&self) -> bool {
        &&& self.field.wf()
        &&& self.field.rows() == self.size
        &&& self.field.cols() == self.size
        &&& self@.inv()
    }

    /// A fresh game made from given draws.
    pub fn new_game(player_num: usize, size: usize, oil_num: usize, bom_num: usize) -> (g: Game)
        requires
            stock_ok(size, oil_num, bom_num),
        ensures
            g.wf(),
            g@ == initial_view(player_num, size, oil_num, bom_num),
    {
        let mut player: Vec<Player> = Vec::new();
        let mut i: usize = 0;
        while i < player_num
            invariant
                i <= player_num,
                1 <= size <= FIELD_SIDE_LIMIT,
                player@.len() == i,
                forall|k: int|
                    0 <= k < i ==> #[trigger] player@[k] == (Player {
                        cd: corner(k, size as int),
                        galon: 0,
                        bom: None,
                        is_alive: true,
                    }),
            decreases player_num - i,
        {
            let odd: bool = i & 1 != 0;
            assert(odd == (i % 2 != 0)) by (bit_vector)
                requires
                    odd == (i & 1 != 0),
            ;
            let x: usize = if !odd {
                0
            } else {
                size - 1
            };
            let y: usize = if i <= 1 {
                0
            } else {
                size - 1
            };
            let cd = Coord::new(x as i32, y as i32);
            player.push(Player::new(cd, 0));
            i = i + 1;
        }
        let g = Game {
            size: size,
            player_num: player_num,
            player: player,
            oil_list: BTreeMap::new(),
            bom_list: BTreeMap::new(),
            field: Field::new(FieldState::Empty, size, size),
            oil_num: oil_num,
            bom_num: bom_num,
            player_bom: 0,
            explosion_list: Vec::new(),
        };
        let ghost iv = initial_view(player_num, size, oil_num, bom_num);
        assert(g@.players =~= iv.players);
        assert forall|y: int| 0 <= y < size implies #[trigger] g@.cells[y] =~= iv.cells[y] by {
            assert forall|x: int| 0 <= x < size implies g@.cells[y][x] == iv.cells[y][x] by {
                assert(g.field.in_grid(x, y));
            }
        }
        assert(g@.cells =~= iv.cells);
        assert(g@ == iv);
        proof {
            lemma_holders_none(g@.players);
        }
        g
    }

    /// A fresh game with a random side, number of wells and number of bombs.
    pub fn make_random_game(player_num: usize) -> (g: Game)
        ensures
            g.wf(),
            draws_ok(g@.size, g@.oil_num, g@.bom_num),
            g@ == initial_view(player_num, g@.size, g@.oil_num, g@.bom_num),
    {
        let mut rng = random::thread_rng();
        let size: usize = random::gen_range_usize(&mut rng, FIELD_SIZE_MIN, FIELD_SIZE_MAX);
        let oil_num: usize = random::gen_range_usize(&mut rng, size, size * 2);
        let bom_num: usize = random::gen_range_usize(&mut rng, size / 4, size / 3);
        proof {
            reveal(stock_fits);
            assert(oil_num + bom_num <= size * size) by (nonlinear_arith)
                requires
                    FIELD_SIZE_MIN <= size < FIELD_SIZE_MAX,
                    oil_num < size * 2,
                    bom_num < size / 3,
            ;
        }
        Game::new_game(player_num, size, oil_num, bom_num)
    }

    /// The blast check of a turn: every armed bomb that a player other than its owner
    /// stands near enough to goes off. Returns whether any did.
    #[verifier::loop_isolation(false)]
    pub fn detonate(&mut self) -> (res: bool)
        requires
            old(self).wf(),
        ensures
            final(self).wf(),
            detonated(old(self)@, final(self)@, res),
    {
        let ghost v = self@;
        let mut res = false;
        let mut i: usize = 0;
        proof {
            assert(self@.explosions.skip(v.explosions.len() as int) =~= Seq::empty());
            assert(self@.explosions.subrange(0, v.explosions.len() as int) =~= v.explosions);
            lemma_board_frame(v, self@);
        }
        while i < self.player_num
            invariant
                self.wf(),
                i <= v.player_num,
                detonation_progress(v, self@, i * 121, res),
            decreases v.player_num - i,
        {
            let cur = self.player[i].cd;
            let mut dx: i32 = -5;
            while dx < 6
                invariant
                    self.wf(),
                    i < v.player_num,
                    cur == v.players[i as int].cd,
                    -5 <= dx <= 6,
                    detonation_progress(v, self@, i * 121 + (dx + 5) * 11, res),
                decreases 6 - dx,
            {
                let mut dy: i32 = -5;
                while dy < 6
                    invariant
                        self.wf(),
                        i < v.player_num,
                        cur == v.players[i as int].cd,
                        -5 <= dx < 6,
                        -5 <= dy <= 6,
                        detonation_progress(v, self@, i * 121 + (dx + 5) * 11 + (dy + 5), res),
                    decreases 6 - dy,
                {
                    let ghost s = i * 121 + (dx + 5) * 11 + (dy + 5);
                    let ghost w = self@;
                    let ghost res0 = res;
                    let nxt = cur + Coord::new(dx, dy);
                    let adx: i32 = if dx < 0 {
                        -dx
                    } else {
                        dx
                    };
                    let ady: i32 = if dy < 0 {
                        -dy
                    } else {
                        dy
                    };
                    let d: i32 = if adx > ady {
                        adx
                    } else {
                        ady
                    };
                    proof {
                        lemma_done_step(v, s, i as int, dx as int, dy as int);
                    }
                    if self.field.id_ok(&nxt) {
                        match self.field.index(nxt) {
                            FieldState::Bom(BomCat::Ready((dist, id))) => {
                                if id != i && dist >= d {
                                    self.field.set(nxt, FieldState::Empty);
                                    self.bom_list.remove(&(nxt.x, nxt.y));
                                    self.explosion_list.push((nxt, dist, 0));
                                    res = true;
                                    proof {
                                        lemma_clear_cell(w, self@, nxt.x as int, nxt.y as int);
                                        lemma_detonation_fire(v, w, self@, s, i as int, nxt);
                                    }
                                } else {
                                    proof {
                                        lemma_detonation_skip(v, w, s, i as int, dx as int, dy as int);
                                    }
                                }
                            },
                            _ => {
                                proof {
                                    lemma_detonation_skip(v, w, s, i as int, dx as int, dy as int);
                                }
                            },
                        }
                    } else {
                        proof {
                            lemma_detonation_skip(v, w, s, i as int, dx as int, dy as int);
                        }
                    }
                    dy = dy + 1;
                }
                dx = dx + 1;
            }
            i = i + 1;
        }
        proof {
            lemma_detonation_end(v, self@, res);
        }
        res
    }

    /// The empty cells of the field, each once.
    #[verifier::loop_isolation(false)]
    fn empty_cells(&self) -> (r: Vec<Coord>)
        requires
            self.wf(),
        ensures
            forall|k: int|
                0 <= k < r.len() ==> self@.in_grid((#[trigger] r[k]).x as int, r[k].y as int)
                    && (self@.cell(r[k].x as int, r[k].y as int) is Empty),
            forall|j: int, k: int| 0 <= j < k < r.len() ==> #[trigger] r[j] != #[trigger] r[k],
            forall|x: int, y: int|
                self@.in_grid(x, y) && #[trigger] self@.cell(x, y) is Empty ==> exists|k: int|
                    0 <= k < r.len() && #[trigger] r[k] == (Coord { x: x as i32, y: y as i32 }),
    {
        let mut r: Vec<Coord> = Vec::new();
        let mut y: usize = 0;
        while y < self.size
            invariant
                y <= self.size,
                forall|k: int|
                    0 <= k < r.len() ==> self@.in_grid((#[trigger] r[k]).x as int, r[k].y as int)
                        && self@.cell(r[k].x as int, r[k].y as int) is Empty && r[k].y < y,
                forall|j: int, k: int| 0 <= j < k < r.len() ==> #[trigger] r[j] != #[trigger] r[k],
                forall|xx: int, yy: int|
                    self@.in_grid(xx, yy) && yy < y && #[trigger] self@.cell(xx, yy) is Empty
                        ==> exists|k: int|
                        0 <= k < r.len() && #[trigger] r[k] == (Coord { x: xx as i32, y: yy as i32 }),
            decreases self.size - y,
        {
            let mut x: usize = 0;
            while x < self.size
                invariant
                    x <= self.size,
                    y < self.size,
                    forall|k: int|
                        0 <= k < r.len() ==> self@.in_grid((#[trigger] r[k]).x as int, r[k].y as int)
                            && self@.cell(r[k].x as int, r[k].y as int) is Empty && (r[k].y < y || (
                        r[k].y == y && r[k].x < x)),
                    forall|j: int, k: int| 0 <= j < k < r.len() ==> #[trigger] r[j] != #[trigger] r[k],
                    forall|xx: int, yy: int|
                        self@.in_grid(xx, yy) && (yy < y || (yy == y && xx < x))
                            && #[trigger] self@.cell(xx, yy) is Empty ==> exists|k: int|
                            0 <= k < r.len() && #[trigger] r[k] == (Coord {
                                x: xx as i32,
                                y: yy as i32,
                            }),
                decreases self.size - x,
            {
                match self.field.index_xy((x, y)) {
                    FieldState::Empty => {
                        let ghost r0 = r@;
                        r.push(Coord::new(x as i32, y as i32));
                        proof {
                            assert forall|xx: int, yy: int|
                                self@.in_grid(xx, yy) && (yy < y || (yy == y && xx < x + 1))
                                    && #[trigger] self@.cell(xx, yy) is Empty implies exists|k: int|
                                0 <= k < r.len() && #[trigger] r[k] == Coord {
                                    x: xx as i32,
                                    y: yy as i32,
                                } by {
                                if yy == y && xx == x {
                                    assert(r[r0.len() as int] == Coord { x: xx as i32, y: yy as i32 });
                                } else {
                                    let k = choose|k: int|
                                        0 <= k < r0.len() && #[trigger] r0[k] == Coord {
                                            x: xx as i32,
                                            y: yy as i32,
                                        };
                                    assert(r[k] == r0[k]);
                                }
                            }
                        }
                    },
                    _ => {},
                }
                x = x + 1;
            }
            y = y + 1;
        }
        r
    }

    /// Puts an oil well holding `g` on the empty cell `cd`.
    pub fn place_oil(&mut self, cd: Coord, g: i32)
        requires
            old(self).wf(),
            old(self)@.in_grid(cd.x as int, cd.y as int),
            old(self)@.cell(cd.x as int, cd.y as int) is Empty,
            oil_ok(g),
            old(self)@.oils.len() < old(self)@.oil_num,
        ensures
            final(self).wf(),
            final(self)@ == (GameView {
                oils: old(self)@.oils.insert(key(cd.x as int, cd.y as int), g),
                cells: with_cell(old(self)@, cd.x as int, cd.y as int, FieldState::Oil(g)),
                ..old(self)@
            }),
    {
        let ghost v = self@;
        self.oil_list.insert((cd.x, cd.y), g);
        self.field.set(cd, FieldState::Oil(g));
        proof {
            lemma_put_cell(v, self@, cd.x as int, cd.y as int, FieldState::Oil(g));
            assert(self@ == (GameView {
                oils: v.oils.insert(key(cd.x as int, cd.y as int), g),
                cells: with_cell(v, cd.x as int, cd.y as int, FieldState::Oil(g)),
                ..v
            }));
        }
    }

    /// Puts a safe bomb of blast distance `d` on the empty cell `cd`.
    pub fn place_bom(&mut self, cd: Coord, d: i32)
        requires
            old(self).wf(),
            old(self)@.in_grid(cd.x as int, cd.y as int),
            old(self)@.cell(cd.x as int, cd.y as int) is Empty,
            bom_dist_ok(d),
            old(self)@.boms.len() + old(self)@.player_bom < old(self)@.bom_num,
        ensures
            final(self).wf(),
            final(self)@ == (GameView {
                boms: old(self)@.boms.insert(key(cd.x as int, cd.y as int), BomCat::Safe(d)),
                cells: with_cell(
                    old(self)@,
                    cd.x as int,
                    cd.y as int,
                    FieldState::Bom(BomCat::Safe(d)),
                ),
                ..old(self)@
            }),
    {
        let ghost v = self@;
        let bom = BomCat::Safe(d);
        self.bom_list.insert((cd.x, cd.y), bom);
        self.field.set(cd, FieldState::Bom(bom));
        proof {
            lemma_put_cell(v, self@, cd.x as int, cd.y as int, FieldState::Bom(bom));
        }
    }

    /// Stocks the field with oil wells on empty cells, drawn at random, until it holds
    /// `oil_num` of them.
    fn refill_oil(&mut self, rng: &mut rand::rngs::ThreadRng)
        requires
            old(self).wf(),
        ensures
            final(self).wf(),
            oil_refilled(old(self)@, final(self)@),
    {
        let ghost a = self@;
        assert(oil_refill_progress(a, self@));
        loop
            invariant
                self.wf(),
                oil_refill_progress(a, self@),
            ensures
                self.wf(),
                oil_refilled(a, self@),
            decreases self@.oil_num - self@.oils.len(),
        {
            if self.oil_num <= self.oil_list.len() {
                break;
            }
            let empties = self.empty_cells();
            proof {
                lemma_room_left(self@);
            }
            let k = random::gen_range_usize(rng, 0, empties.len());
            let g = random::gen_range_i32(rng, MIN_OIL, MAX_OIL);
            let ghost b = self@;
            self.place_oil(empties[k], g);
            proof {
                lemma_put_cell(b, self@, empties[k as int].x as int, empties[k as int].y as int, FieldState::Oil(g));
            }
        }
    }

    /// Stocks the field with safe bombs on empty cells, drawn at random, until the bombs
    /// on the field and those picked up make `bom_num`.
    fn refill_bom(&mut self, rng: &mut rand::rngs::ThreadRng)
        requires
            old(self).wf(),
        ensures
            final(self).wf(),
            bom_refilled(old(self)@, final(self)@),
    {
        let ghost a = self@;
        assert(bom_refill_progress(a, self@));
        loop
            invariant
                self.wf(),
                bom_refill_progress(a, self@),
            ensures
                self.wf(),
                bom_refilled(a, self@),
            decreases self@.bom_num - self@.boms.len(),
        {
            if self.bom_num <= self.bom_list.len() + self.player_bom {
                break;
            }
            let empties = self.empty_cells();
            proof {
                lemma_room_left(self@);
            }
            let k = random::gen_range_usize(rng, 0, empties.len());
            let d = random::gen_range_i32(rng, MIN_BOM, MAX_BOM);
            let ghost b = self@;
            self.place_bom(empties[k], d);
            proof {
                lemma_put_cell(b, self@, empties[k as int].x as int, empties[k as int].y as int, FieldState::Bom(BomCat::Safe(d)));
            }
        }
    }

    /// The players, in turn, empty the oil wells they stand on into their tanks.
    #[verifier::loop_isolation(false)]
    pub fn collect_oil(&mut self)
        requires
            old(self).wf(),
            collect_fits(old(self)@),
        ensures
            final(self).wf(),
            collected(old(self)@, final(self)@),
    {
        let ghost a = self@;
        let mut i: usize = 0;
        while i < self.player_num
            invariant
                self.wf(),
                i <= a.player_num,
                collect_progress(a, self@, i as int),
            decreases a.player_num - i,
        {
            let ghost w = self@;
            let p = self.player[i];
            assert(p == a.players[i as int]);
            proof {
                // a well still under the player means nobody before it stood there
                let (px, py) = (p.cd.x as int, p.cd.y as int);
                assert(a.in_grid(px, py));
                if w.cell(px, py) is Oil {
                    assert forall|j: int| 0 <= j < i implies (#[trigger] a.players[j]).cd != a.players[i as int].cd by {
                        if a.players[j].cd == a.players[i as int].cd {
                            assert(occupied_before(a, i as int, px, py));
                        }
                    }
                    assert(picks(a, i as int));
                }
            }
            match self.field.index(p.cd) {
                FieldState::Oil(g) => {
                    let np = Player { galon: p.galon + g, ..p };
                    self.player.set(i, np);
                    self.field.set(p.cd, FieldState::Empty);
                    self.oil_list.remove(&(p.cd.x, p.cd.y));
                    proof {
                        lemma_holders_update(w.players, i as int, np);
                        lemma_clear_cell(w, self@, p.cd.x as int, p.cd.y as int);
                        lemma_collect_step(a, w, self@, i as int);
                    }
                },
                _ => {
                    proof {
                        lemma_collect_step(a, w, self@, i as int);
                    }
                },
            }
            i = i + 1;
        }
        proof {
            assert forall|x: int, y: int| #[trigger] occupied(a, x, y) == occupied_before(a, a.player_num as int, x, y) by {
                if occupied(a, x, y) {
                    let j = choose|j: int| 0 <= j < a.player_num && (#[trigger] a.players[j]).cd == Coord { x: x as i32, y: y as i32 };
                    assert(occupied_before(a, a.player_num as int, x, y));
                }
            }
        }
    }

    /// One turn of upkeep: armed bombs near other players go off, the field is stocked
    /// with oil wells again, the players empty the wells they stand on, and the field is
    /// stocked with bombs again. Returns whether any bomb went off.
    pub fn update(&mut self) -> (res: bool)
        requires
            old(self).wf(),
            update_fits(old(self)@),
        ensures
            final(self).wf(),
            final(self)@.inv(),
            exists|v1: GameView, v2: GameView, v3: GameView|
                #![trigger detonated(old(self)@, v1, res), oil_refilled(v1, v2), collected(v2, v3)]
                v1.inv() && v2.inv() && v3.inv() && detonated(old(self)@, v1, res) && oil_refilled(
                    v1,
                    v2,
                ) && collected(v2, v3) && bom_refilled(v3, final(self)@)
                    && v2.oils.len() <= final(self)@.oils.len() + final(self)@.player_num,
            final(self)@.oil_num <= final(self)@.oils.len() + final(self)@.player_num,
            final(self)@.boms.len() + final(self)@.player_bom == final(self)@.bom_num,
    {
        let ghost v0 = self@;
        let res = self.detonate();
        let ghost v1 = self@;
        let mut rng = random::thread_rng();
        self.refill_oil(&mut rng);
        let ghost v2 = self@;
        proof {
            assert forall|i: int| 0 <= i < v2.player_num && #[trigger] picks(v2, i) implies v2.players[i].galon + oil_in(
                v2.cell(v2.players[i].cd.x as int, v2.players[i].cd.y as int),
            ) <= i32::MAX by {
                let p = v0.players[i];
                let (x, y) = (p.cd.x as int, p.cd.y as int);
                assert(v2.players[i] == p);
                assert(v0.in_grid(x, y));
                assert(first_on_cell(v0, i));
                assert(cell_ok(v2.cell(x, y), v2.player_num));
                if !(v0.cell(x, y) is Oil) {
                    assert(v1.cell(x, y) is Empty);
                    assert(v1.oils.len() < v1.oil_num);
                }
            }
        }
        self.collect_oil();
        proof {
            lemma_collect_takes_a_well_per_player(v2, self@);
        }
        self.refill_bom(&mut rng);
        res
    }

    /// The state of the game as an AI reads it, told to player `player_id`.
    pub fn get_state_str(&self, player_id: usize) -> (s: String)
        requires
            self.wf(),
        ensures
            s@ == state_text(self@, player_id as int),
    {
        let ghost v = self@;
        let mut out: Vec<char> = Vec::new();
        push_nat(&mut out, self.size as u64);
        out.push('\n');
        push_nat(&mut out, self.player_num as u64);
        out.push(' ');
        push_nat(&mut out, player_id as u64);
        out.push('\n');
        let ghost head = out@;
        let mut i: usize = 0;
        while i < self.player_num
            invariant
                self.wf(),
                v == self@,
                i <= v.player_num,
                out@ == head + players_text(v.players.subrange(0, i as int)),
            decreases v.player_num - i,
        {
            let p = self.player[i];
            push_line3(&mut out, p.cd.x as i64, p.cd.y as i64, p.galon as i64);
            assert(v.players.subrange(0, i + 1).drop_last() =~= v.players.subrange(0, i as int));
            i = i + 1;
        }
        assert(v.players.subrange(0, v.player_num as int) =~= v.players);
        push_nat(&mut out, self.oil_list.len() as u64);
        out.push('\n');
        self.push_cells(&mut out, true);
        push_nat(&mut out, self.bom_list.len() as u64);
        out.push('\n');
        self.push_cells(&mut out, false);
        assert(out@ =~= state_text(v, player_id as int));
        string_from_chars(&out)
    }

    /// Appends the lines of the wells (`oil`) or of the bombs, in the order of their keys.
    fn push_cells(&self, out: &mut Vec<char>, oil: bool)
        requires
            self.wf(),
        ensures
            final(out)@ == old(out)@ + cells_text(self@, self@.size as int, oil),
    {
        let ghost v = self@;
        let ghost start = out@;
        let mut x: usize = 0;
        while x < self.size
            invariant
                self.wf(),
                v == self@,
                x <= v.size,
                out@ == start + cells_text(v, x as int, oil),
            decreases v.size - x,
        {
            let ghost col_start = out@;
            let mut y: usize = 0;
            while y < self.size
                invariant
                    self.wf(),
                    v == self@,
                    x < v.size,
                    y <= v.size,
                    col_start == start + cells_text(v, x as int, oil),
                    out@ == col_start + column_text(v, x as int, y as int, oil),
                decreases v.size - y,
            {
                let c = self.field.index_xy((x, y));
                let ghost before = out@;
                if oil {
                    match c {
                        FieldState::Oil(g) => {
                            push_line3(out, x as i64, y as i64, g as i64);
                        },
                        _ => {},
                    }
                } else {
                    match c {
                        FieldState::Bom(BomCat::Safe(_)) => {
                            push_line3(out, x as i64, y as i64, -1);
                        },
                        FieldState::Bom(BomCat::Ready((_, id))) => {
                            push_line3(out, x as i64, y as i64, id as i32 as i64);
                        },
                        _ => {},
                    }
                }
                assert(out@ =~= col_start + column_text(v, x as int, y + 1, oil));
                y = y + 1;
            }
            assert(out@ =~= start + cells_text(v, x + 1, oil));
            x = x + 1;
        }
    }

    /// One turn of the explosions under way: every cell they reach loses its oil well,
    /// every player standing there dies, and each explosion grows by one or ends.
    pub fn spread_explosions(&mut self) -> (r: BlastStep)
        requires
            old(self).wf(),
        ensures
            final(self).wf(),
            spread(old(self)@, final(self)@, r),
    {
        let ghost v = self@;
        let mut burned: Vec<Coord> = Vec::new();
        let mut deaths: Vec<Coord> = Vec::new();
        if self.explosion_list.len() == 0 {
            return BlastStep { burned: burned, deaths: deaths, finished: false };
        }
        let mut explist_nxt: Vec<(Coord, i32, i32)> = Vec::new();
        let n = self.explosion_list.len();
        let mut k: usize = 0;
        proof {
            lemma_board_frame(v, self@);
            assert(v.explosions.subrange(0, 0) =~= Seq::empty());
        }
        while k < n
            invariant
                self.wf(),
                v.inv(),
                n == v.explosions.len(),
                self@.explosions == v.explosions,
                k <= n,
                spread_state(v, self@, burned@, deaths@),
                burned@ == burn_seq(v.explosions.subrange(0, k as int), v.size as int),
                explist_nxt@ == next_explosions(v.explosions.subrange(0, k as int)),
            decreases n - k,
        {
            let (cd, dist, turn) = self.explosion_list[k];
            assert(explosion_ok(v.explosions[k as int], v.size));
            let ghost b0 = burned@;
            let mut dx: i32 = -turn;
            while dx <= turn
                invariant
                    self.wf(),
                    v.inv(),
                    self@.explosions == v.explosions,
                    0 <= turn <= dist < MAX_BOM,
                    0 <= cd.x < v.size,
                    0 <= cd.y < v.size,
                    -turn <= dx <= turn + 1,
                    spread_state(v, self@, burned@, deaths@),
                    burned@ == b0 + blast_cols(cd, turn as int, v.size as int, dx + turn),
                decreases turn + 1 - dx,
            {
                let ghost b1 = burned@;
                let mut dy: i32 = -turn;
                while dy <= turn
                    invariant
                        self.wf(),
                        v.inv(),
                        self@.explosions == v.explosions,
                        0 <= turn <= dist < MAX_BOM,
                        0 <= cd.x < v.size,
                        0 <= cd.y < v.size,
                        -turn <= dx <= turn,
                        -turn <= dy <= turn + 1,
                        spread_state(v, self@, burned@, deaths@),
                        burned@ == b1 + blast_col(cd, turn as int, v.size as int, dx as int, dy + turn),
                    decreases turn + 1 - dy,
                {
                    let cur = cd + Coord::new(dx, dy);
                    if self.field.id_ok(&cur) {
                        self.burn_cell(Ghost(v), cur, &mut burned, &mut deaths);
                    }
                    assert(burned@ =~= b1 + blast_col(cd, turn as int, v.size as int, dx as int, dy + turn + 1));
                    dy = dy + 1;
                }
                assert(burned@ =~= b0 + blast_cols(cd, turn as int, v.size as int, dx + turn + 1));
                dx = dx + 1;
            }
            if dist > turn {
                explist_nxt.push((cd, dist, turn + 1));
            }
            proof {
                assert(v.explosions.subrange(0, k + 1).drop_last() =~= v.explosions.subrange(0, k as int));
            }
            k = k + 1;
        }
        proof {
            assert(v.explosions.subrange(0, n as int) =~= v.explosions);
            assert forall|j: int| 0 <= j < explist_nxt@.len() implies explosion_ok(
                #[trigger] explist_nxt@[j],
                v.size,
            ) by {
                lemma_next_explosions_ok(v.explosions, v.size, j);
            }
        }
        let ghost w = self@;
        self.explosion_list = explist_nxt;
        proof {
            lemma_board_frame(w, self@);
            assert forall|x: int, y: int| v.in_grid(x, y) implies #[trigger] self@.cell(x, y) == w.cell(x, y) by {}
        }
        let finished = self.explosion_list.len() == 0;
        BlastStep { burned: burned, deaths: deaths, finished: finished }
    }

    /// A blast reaches cell `cur`: its oil well goes, and every player on it dies.
    fn burn_cell(&mut self, Ghost(v): Ghost<GameView>, cur: Coord, burned: &mut Vec<Coord>, deaths: &mut Vec<Coord>)
        requires
            old(self).wf(),
            v.inv(),
            spread_state(v, old(self)@, old(burned)@, old(deaths)@),
            v.in_grid(cur.x as int, cur.y as int),
        ensures
            final(self).wf(),
            final(self)@.explosions == old(self)@.explosions,
            final(burned)@ == old(burned)@.push(cur),
            spread_state(v, final(self)@, final(burned)@, final(deaths)@),
    {
        let ghost w = self@;
        let ghost b0 = burned@;
        match self.field.index(cur) {
            FieldState::Oil(_) => {
                self.field.set(cur, FieldState::Empty);
                self.oil_list.remove(&(cur.x, cur.y));
                proof {
                    lemma_clear_cell(w, self@, cur.x as int, cur.y as int);
                }
            },
            _ => {
                proof {
                    lemma_board_frame(w, self@);
                }
            },
        }
        burned.push(cur);
        let ghost u = self@;
        let ghost d0 = deaths@;
        proof {
            assert(b0.push(cur).drop_last() =~= b0);
            assert forall|x: int, y: int| v.in_grid(x, y) implies #[trigger] u.cell(x, y) == (if v.cell(
                x,
                y,
            ) is Oil && burned@.contains(Coord { x: x as i32, y: y as i32 }) {
                FieldState::Empty
            } else {
                v.cell(x, y)
            }) by {
                let c = Coord { x: x as i32, y: y as i32 };
                assert(burned@.contains(c) == (b0.contains(c) || c == cur)) by {
                    if burned@.contains(c) {
                        let k = choose|k: int| 0 <= k < burned@.len() && burned@[k] == c;
                        if k < b0.len() {
                            assert(b0[k] == c);
                        }
                    }
                    if b0.contains(c) {
                        let k = choose|k: int| 0 <= k < b0.len() && b0[k] == c;
                        assert(burned@[k] == c);
                    }
                    if c == cur {
                        assert(burned@[b0.len() as int] == c);
                    }
                }
            }
        }
        let mut j: usize = 0;
        while j < self.player_num
            invariant
                self.wf(),
                v.inv(),
                spread_state(v, w, b0, d0),
                j <= v.player_num,
                burned@ == b0.push(cur),
                v.in_grid(cur.x as int, cur.y as int),
                self@ == (GameView { players: self@.players, ..u }),
                self@.players.len() == v.players.len(),
                deaths@ == d0 + deaths_at(v.players, cur, j as int),
                forall|i: int|
                    0 <= i < v.player_num ==> #[trigger] self@.players[i] == (Player {
                        is_alive: v.players[i].is_alive && !b0.contains(v.players[i].cd) && !(i < j
                            && v.players[i].cd == cur),
                        ..v.players[i]
                    }),
            decreases v.player_num - j,
        {
            let p = self.player[j];
            let ghost before = self@;
            if p.cd == cur {
                let np = Player { is_alive: false, ..p };
                self.player.set(j, np);
                deaths.push(p.cd);
                proof {
                    lemma_holders_update(before.players, j as int, np);
                    lemma_board_frame(before, self@);
                    assert forall|i: int| 0 <= i < self@.player_num implies {
                        &&& self@.in_grid((#[trigger] self@.players[i]).cd.x as int, self@.players[i].cd.y as int)
                        &&& (self@.players[i].bom matches Some(d) ==> bom_dist_ok(d))
                    } by {
                        assert(before.players_ok());
                        if i != j {
                            assert(self@.players[i] == before.players[i]);
                        }
                    }
                    assert(before.explosions_ok());
                    assert(self@.explosions == before.explosions);
                    assert forall|k: int| 0 <= k < self@.explosions.len() implies explosion_ok(
                        #[trigger] self@.explosions[k],
                        self@.size,
                    ) by {
                        assert(explosion_ok(before.explosions[k], before.size));
                    }
                }
            }
            proof {
                assert(deaths@ =~= d0 + deaths_at(v.players, cur, j + 1));
            }
            j = j + 1;
        }
        proof {
            assert forall|i: int| 0 <= i < v.player_num implies #[trigger] self@.players[i] == (Player {
                is_alive: v.players[i].is_alive && !burned@.contains(v.players[i].cd),
                ..v.players[i]
            }) by {
                let c = v.players[i].cd;
                if burned@.contains(c) {
                    let k = choose|k: int| 0 <= k < burned@.len() && burned@[k] == c;
                    if k < b0.len() {
                        assert(b0[k] == c);
                    }
                }
                if b0.contains(c) {
                    let k = choose|k: int| 0 <= k < b0.len() && b0[k] == c;
                    assert(burned@[k] == c);
                }
                if c == cur {
                    assert(burned@[b0.len() as int] == c);
                }
            }
            assert(deaths@ =~= deaths_seq(v.players, burned@));
            assert forall|x: int, y: int| v.in_grid(x, y) implies #[trigger] self@.cell(x, y) == u.cell(x, y) by {}
        }
    }

    /// The number of players.
    pub fn player_count(&self) -> (n: usize)
        ensures
            n == self@.player_num,
    {
        self.player_num
    }

    /// Player `i`.
    pub fn player_at(&self, i: usize) -> (p: Player)
        requires
            self.wf(),
            i < self@.player_num,
        ensures
            p == self@.players[i as int],
    {
        self.player[i]
    }

    /// The cell at column `x`, row `y`.
    pub fn cell_at(&self, x: usize, y: usize) -> (c: FieldState)
        requires
            self.wf(),
            x < self@.size,
            y < self@.size,
        ensures
            c == self@.cell(x as int, y as int),
    {
        self.field.index_xy((x, y))
    }

    /// Whether a turn of upkeep keeps every tank within `i32` whatever the draws, as
    /// `update` needs.
    pub fn update_fits_i32(&self) -> (b: bool)
        requires
            self.wf(),
        ensures
            b == update_fits(self@),
    {
        let ghost v = self@;
        let missing = self.oil_list.len() < self.oil_num;
        let mut i: usize = 0;
        while i < self.player_num
            invariant
                self.wf(),
                v == self@,
                i <= v.player_num,
                missing == (v.oils.len() < v.oil_num),
                forall|k: int| 0 <= k < i && #[trigger] first_on_cell(v, k) ==> update_fits_at(v, k),
            decreases v.player_num - i,
        {
            let p = self.player[i];
            if self.first_on_cell(i) {
                let c = self.field.index(p.cd);
                let ok = match c {
                    FieldState::Oil(g) => p.galon as i64 + g as i64 <= i32::MAX as i64,
                    _ => {
                        let empty = match c {
                            FieldState::Empty => true,
                            _ => false,
                        };
                        if missing && (empty || self.is_set_off(p.cd)) {
                            p.galon as i64 + (MAX_OIL - 1) as i64 <= i32::MAX as i64
                        } else {
                            true
                        }
                    },
                };
                if !ok {
                    return false;
                }
            }
            i = i + 1;
        }
        true
    }

    /// Whether no player before player `i` stands on its cell.
    fn first_on_cell(&self, i: usize) -> (b: bool)
        requires
            self.wf(),
            i < self@.player_num,
        ensures
            b == first_on_cell(self@, i as int),
    {
        let cd = self.player[i].cd;
        let mut j: usize = 0;
        while j < i
            invariant
                self.wf(),
                i < self@.player_num,
                cd == self@.players[i as int].cd,
                j <= i,
                forall|k: int| 0 <= k < j ==> (#[trigger] self@.players[k]).cd != cd,
            decreases i - j,
        {
            if self.player[j].cd == cd {
                return false;
            }
            j = j + 1;
        }
        true
    }

    /// Whether some player sets off the bomb on cell `cd`, which lies on the field.
    fn is_set_off(&self, cd: Coord) -> (b: bool)
        requires
            self.wf(),
            self@.in_grid(cd.x as int, cd.y as int),
        ensures
            b == set_off(self@, cd.x as int, cd.y as int),
    {
        let ghost v = self@;
        match self.field.index(cd) {
            FieldState::Bom(BomCat::Ready((dist, id))) => {
                let mut j: usize = 0;
                while j < self.player_num
                    invariant
                        self.wf(),
                        v == self@,
                        v.in_grid(cd.x as int, cd.y as int),
                        v.cell(cd.x as int, cd.y as int) == FieldState::Bom(BomCat::Ready((dist, id))),
                        j <= v.player_num,
                        forall|k: int| 0 <= k < j ==> !#[trigger] sets_off(v, k, cd.x as int, cd.y as int),
                    decreases v.player_num - j,
                {
                    let p = self.player[j].cd;
                    let dx: i32 = cd.x - p.x;
                    let dy: i32 = cd.y - p.y;
                    if -5 <= dx && dx <= 5 && -5 <= dy && dy <= 5 && id != j {
                        let adx: i32 = if dx < 0 {
                            -dx
                        } else {
                            dx
                        };
                        let ady: i32 = if dy < 0 {
                            -dy
                        } else {
                            dy
                        };
                        let d: i32 = if adx > ady {
                            adx
                        } else {
                            ady
                        };
                        if dist >= d {
                            assert(sets_off(v, j as int, cd.x as int, cd.y as int));
                            return true;
                        }
                    }
                    j = j + 1;
                }
                false
            },
            _ => false,
        }
    }

    /// Whether `act(player_id, ac)` keeps the player's oil within `i32`.
    pub fn act_fits_i32(&self, player_id: usize, ac: Action) -> (b: bool)
        requires
            self.wf(),
            player_id < self@.player_num,
        ensures
            b == act_fits(self@, player_id as int, ac),
    {
        let p = self.player[player_id];
        match ac {
            Action::Move(id) => {
                if id < 4 {
                    let nxt = p.cd + moves(id);
                    if cd_ok(nxt, self.size) {
                        match self.field.index(nxt) {
                            FieldState::Oil(g) => p.galon as i64 + g as i64 <= i32::MAX as i64,
                            _ => true,
                        }
                    } else {
                        true
                    }
                } else {
                    true
                }
            },
            _ => true,
        }
    }

    /// Player `player_id` takes action `ac`; returns whether it was accepted.
    pub fn act(&mut self, player_id: usize, ac: Action) -> (accepted: bool)
        requires
            old(self).wf(),
            player_id < old(self)@.player_num,
            act_fits(old(self)@, player_id as int, ac),
        ensures
            final(self).wf(),
            final(self)@.inv(),
            (final(self)@, accepted) == act_spec(old(self)@, player_id as int, ac),
    {
        let ghost v = self@;
        let p = self.player[player_id];
        let cur = p.cd;
        match ac {
            Action::Move(id) => {
                if id < 4 {
                    let nxt = cur + moves(id);
                    if !cd_ok(nxt, self.size) {
                        return false;
                    }
                    match self.field.index(nxt) {
                        FieldState::Oil(g) => {
                            let np = Player { cd: nxt, galon: p.galon + g, ..p };
                            self.player.set(player_id, np);
                            self.field.set(nxt, FieldState::Empty);
                            self.oil_list.remove(&(nxt.x, nxt.y));
                            proof {
                                lemma_holders_update(v.players, player_id as int, np);
                                lemma_clear_cell(v, self@, nxt.x as int, nxt.y as int);
                            }
                        },
                        _ => {
                            let np = Player { cd: nxt, ..p };
                            self.player.set(player_id, np);
                            proof {
                                lemma_holders_update(v.players, player_id as int, np);
                                lemma_board_frame(v, self@);
                            }
                        },
                    }
                }
                true
            },
            Action::PickBom => {
                match self.field.index(cur) {
                    FieldState::Bom(BomCat::Safe(d)) => {
                        proof {
                            assert(v.boms.contains_key(key(cur.x as int, cur.y as int)));
                            assert(v.boms.len() >= 1);
                        }
                        self.player_bom = self.player_bom + 1;
                        let np = Player { bom: Some(d), ..p };
                        self.player.set(player_id, np);
                        self.bom_list.remove(&(cur.x, cur.y));
                        self.field.set(cur, FieldState::Empty);
                        proof {
                            lemma_holders_update(v.players, player_id as int, np);
                            lemma_clear_cell(v, self@, cur.x as int, cur.y as int);
                        }
                        true
                    },
                    _ => false,
                }
            },
            Action::DropBom => {
                match (self.field.index(cur), p.bom) {
                    (FieldState::Empty, Some(d)) => {
                        let np = Player { bom: None, ..p };
                        proof {
                            lemma_holders_update(v.players, player_id as int, np);
                        }
                        self.player_bom = self.player_bom - 1;
                        self.player.set(player_id, np);
                        let bom = BomCat::Ready((d, player_id));
                        self.bom_list.insert((cur.x, cur.y), bom);
                        self.field.set(cur, FieldState::Bom(bom));
                        proof {
                            lemma_put_bom(v, self@, cur.x as int, cur.y as int, bom);
                        }
                        true
                    },
                    _ => false,
                }
            },
        }
    }
}

/// The keys of columns `0..n` of row `y`.
spec fn row_keys(y: int, n: int) -> Set<(i32, i32)>
    decreases n,
{
    if n <= 0 {
        Set::empty()
    } else {
        row_keys(y, n - 1).insert(((n - 1) as i32, y as i32))
    }
}

/// The keys of rows `0..m` of a field of side `s`.
spec fn grid_keys(s: int, m: int) -> Set<(i32, i32)>
    decreases m,
{
    if m <= 0 {
        Set::empty()
    } else {
        grid_keys(s, m - 1).union(row_keys(m - 1, s))
    }
}

/// A row of `n` columns has `n` keys.
proof fn lemma_row_keys(y: int, n: int)
    requires
        0 <= y <= FIELD_SIDE_LIMIT,
        0 <= n <= FIELD_SIDE_LIMIT,
    ensures
        row_keys(y, n).finite(),
        row_keys(y, n).len() == n,
        forall|k: (i32, i32)| #[trigger] row_keys(y, n).contains(k) <==> (k.1 == y && 0 <= k.0 < n),
    decreases n,
{
    if n > 0 {
        lemma_row_keys(y, n - 1);
        assert(!row_keys(y, n - 1).contains(((n - 1) as i32, y as i32)));
    }
}

/// The first `m` rows of a field of side `s` have `s * m` keys.
proof fn lemma_grid_keys(s: int, m: int)
    requires
        0 <= m <= s <= FIELD_SIDE_LIMIT,
    ensures
        grid_keys(s, m).finite(),
        grid_keys(s, m).len() == s * m,
        forall|k: (i32, i32)| #[trigger] grid_keys(s, m).contains(k) <==> (0 <= k.0 < s && 0 <= k.1 < m),
    decreases m,
{
    if m > 0 {
        lemma_grid_keys(s, m - 1);
        lemma_row_keys(m - 1, s);
        assert(grid_keys(s, m - 1).disjoint(row_keys(m - 1, s)));
        vstd::set_lib::lemma_set_disjoint_lens(grid_keys(s, m - 1), row_keys(m - 1, s));
        assert(grid_keys(s, m) == grid_keys(s, m - 1) + row_keys(m - 1, s));
        assert(s * (m - 1) + s == s * m) by (nonlinear_arith);
    } else {
        assert(s * m == 0) by (nonlinear_arith)
            requires
                m == 0,
        ;
    }
}

/// A field with no empty cell holds a well or a bomb on each of its `size * size` cells.
proof fn lemma_full_field(v: GameView)
    requires
        v.board_ok(),
        no_empty(v),
    ensures
        v.size * v.size <= v.oils.len() + v.boms.len(),
{
    let s = v.size as int;
    lemma_grid_keys(s, s);
    let u = v.oils.dom().union(v.boms.dom());
    assert(grid_keys(s, s).subset_of(u)) by {
        assert forall|k: (i32, i32)| grid_keys(s, s).contains(k) implies u.contains(k) by {
            let (x, y) = (k.0 as int, k.1 as int);
            assert(v.in_grid(x, y));
            assert(key(x, y) == k);
            assert(!(v.cell(x, y) is Empty));
        }
    }
    vstd::set_lib::lemma_len_union(v.oils.dom(), v.boms.dom());
    vstd::set_lib::lemma_len_subset(grid_keys(s, s), u);
}

/// While wells or bombs are missing from the stock, some cell of the field is empty.
proof fn lemma_room_left(v: GameView)
    requires
        v.inv(),
        v.oils.len() < v.oil_num || v.boms.len() + v.player_bom < v.bom_num,
    ensures
        exists|x: int, y: int| v.in_grid(x, y) && #[trigger] v.cell(x, y) is Empty,
{
    reveal(stock_fits);
    if !exists|x: int, y: int| v.in_grid(x, y) && #[trigger] v.cell(x, y) is Empty {
        lemma_full_field(v);
    }
}

/// Changing one player changes the number of bomb carriers by what the change does to that player.
proof fn lemma_holders_update(ps: Seq<Player>, i: int, p: Player)
    requires
        0 <= i < ps.len(),
    ensures
        holders(ps.update(i, p)) + holds(ps[i]) == holders(ps) + holds(p),
    decreases ps.len(),
{
    let q = ps.update(i, p);
    if i == ps.len() - 1 {
        assert(q.drop_last() =~= ps.drop_last());
    } else {
        lemma_holders_update(ps.drop_last(), i, p);
        assert(q.drop_last() =~= ps.drop_last().update(i, p));
    }
}

/// Emptying an oil well or a bomb cell, and dropping its key from its map, keeps both maps mirrored.
proof fn lemma_clear_cell(v: GameView, w: GameView, x: int, y: int)
    requires
        v.inv(),
        v.in_grid(x, y),
        w.size == v.size,
        w.cells == with_cell(v, x, y, FieldState::Empty),
        v.cell(x, y) is Oil ==> w.oils == v.oils.remove(key(x, y)) && w.boms == v.boms,
        v.cell(x, y) is Bom ==> w.boms == v.boms.remove(key(x, y)) && w.oils == v.oils,
        v.cell(x, y) is Empty ==> w.boms == v.boms && w.oils == v.oils,
    ensures
        w.oils_mirror(),
        w.boms_mirror(),
        w.cells.len() == w.size,
        forall|yy: int| 0 <= yy < w.size ==> (#[trigger] w.cells[yy]).len() == w.size,
        forall|xx: int, yy: int|
            w.in_grid(xx, yy) ==> w.cell(xx, yy) == (if xx == x && yy == y {
                FieldState::Empty
            } else {
                v.cell(xx, yy)
            }),
{
    assert forall|xx: int, yy: int|
        w.in_grid(xx, yy) implies w.cell(xx, yy) == (if xx == x && yy == y {
            FieldState::Empty
        } else {
            v.cell(xx, yy)
        }) by {
        if yy != y {
            assert(w.cells[yy] == v.cells[yy]);
        }
    }
    assert forall|xx: int, yy: int| w.in_grid(xx, yy) && (xx != x || yy != y) implies key(xx, yy)
        != key(x, y) by {
        assert(xx as i32 as int == xx && yy as i32 as int == yy);
    }
}

/// The field stays valid when neither it, its maps, nor the number of players change.
proof fn lemma_board_frame(v: GameView, w: GameView)
    requires
        v.board_ok(),
        w.size == v.size,
        w.player_num == v.player_num,
        w.cells == v.cells,
        w.oils == v.oils,
        w.boms == v.boms,
    ensures
        w.board_ok(),
{
    assert forall|x: int, y: int| w.in_grid(x, y) implies w.cell(x, y) == v.cell(x, y) by {}
    assert forall|k: (i32, i32)| #[trigger] w.oils.contains_key(k) implies w.in_grid(
        k.0 as int,
        k.1 as int,
    ) by {
        assert(v.oils.contains_key(k));
    }
    assert forall|k: (i32, i32)| #[trigger] w.boms.contains_key(k) implies w.in_grid(
        k.0 as int,
        k.1 as int,
    ) by {
        assert(v.boms.contains_key(k));
    }
}

/// Putting a well or a bomb on an empty cell, and its key into its map, keeps the game valid
/// but for the stock counts, which go up by one.
proof fn lemma_put_cell(v: GameView, w: GameView, x: int, y: int, c: FieldState)
    requires
        v.inv(),
        v.in_grid(x, y),
        v.cell(x, y) is Empty,
        cell_ok(c, v.player_num),
        !(c is Empty),
        w == (GameView {
            oils: if c is Oil {
                v.oils.insert(key(x, y), oil_in(c))
            } else {
                v.oils
            },
            boms: match c {
                FieldState::Bom(b) => v.boms.insert(key(x, y), b),
                _ => v.boms,
            },
            cells: with_cell(v, x, y, c),
            ..v
        }),
    ensures
        w.board_ok(),
        w.players_ok(),
        w.explosions_ok(),
        !v.oils.contains_key(key(x, y)),
        !v.boms.contains_key(key(x, y)),
        w.oils.len() == v.oils.len() + (if c is Oil {
            1int
        } else {
            0
        }),
        w.boms.len() == v.boms.len() + (if c is Bom {
            1int
        } else {
            0
        }),
        forall|xx: int, yy: int|
            w.in_grid(xx, yy) ==> w.cell(xx, yy) == (if xx == x && yy == y {
                c
            } else {
                v.cell(xx, yy)
            }),
{
    assert forall|xx: int, yy: int|
        w.in_grid(xx, yy) implies w.cell(xx, yy) == (if xx == x && yy == y {
            c
        } else {
            v.cell(xx, yy)
        }) by {
        if yy != y {
            assert(w.cells[yy] == v.cells[yy]);
        }
    }
    assert forall|xx: int, yy: int| w.in_grid(xx, yy) && (xx != x || yy != y) implies key(xx, yy)
        != key(x, y) by {
        assert(xx as i32 as int == xx && yy as i32 as int == yy);
    }
    assert forall|yy: int| 0 <= yy < w.size implies (#[trigger] w.cells[yy]).len() == w.size by {
        if yy != y {
            assert(w.cells[yy] == v.cells[yy]);
        }
    }
    assert forall|xx: int, yy: int| w.in_grid(xx, yy) implies cell_ok(
        #[trigger] w.cell(xx, yy),
        w.player_num,
    ) by {
        if xx != x || yy != y {
            assert(cell_ok(v.cell(xx, yy), v.player_num));
        }
    }
}

/// One more player emptying its well moves the collection one step.
proof fn lemma_collect_step(a: GameView, w: GameView, u: GameView, i: int)
    requires
        a.inv(),
        w.inv(),
        0 <= i < a.player_num,
        collect_progress(a, w, i),
        ({
            let p = a.players[i];
            let c = w.cell(p.cd.x as int, p.cd.y as int);
            if c is Oil {
                &&& u == GameView {
                    players: w.players.update(i, Player { galon: (p.galon + oil_in(c)) as i32, ..p }),
                    oils: u.oils,
                    cells: with_cell(w, p.cd.x as int, p.cd.y as int, FieldState::Empty),
                    ..w
                }
            } else {
                u == w
            }
        }),
    ensures
        collect_progress(a, u, i + 1),
{
    let p = a.players[i];
    let px = p.cd.x as int;
    let py = p.cd.y as int;
    let c = w.cell(px, py);
    assert(w.players[i] == p);
    assert(Coord { x: px as i32, y: py as i32 } == p.cd);
    assert(a.in_grid(px, py));
    if occupied_before(a, i, px, py) {
        let j = choose|j: int|
            0 <= j < i && (#[trigger] a.players[j]).cd == Coord { x: px as i32, y: py as i32 };
        assert(!picks(a, i));
    } else {
        assert forall|j: int| 0 <= j < i implies (#[trigger] a.players[j]).cd != a.players[i].cd by {
            if a.players[j].cd == a.players[i].cd {
                assert(occupied_before(a, i, px, py));
            }
        }
    }
    assert((c is Oil) == picks(a, i));
    assert forall|x: int, y: int| a.in_grid(x, y) implies #[trigger] occupied_before(a, i + 1, x, y) == (occupied_before(
        a,
        i,
        x,
        y,
    ) || (x == px && y == py)) by {
        if occupied_before(a, i + 1, x, y) {
            let j = choose|j: int|
                0 <= j < i + 1 && (#[trigger] a.players[j]).cd == Coord { x: x as i32, y: y as i32 };
            if j < i {
                assert(occupied_before(a, i, x, y));
            }
        }
        if x == px && y == py {
            assert(a.players[i].cd == Coord { x: x as i32, y: y as i32 });
        }
        if occupied_before(a, i, x, y) {
            let j = choose|j: int|
                0 <= j < i && (#[trigger] a.players[j]).cd == Coord { x: x as i32, y: y as i32 };
            assert(0 <= j < i + 1);
        }
    }
    assert forall|x: int, y: int| a.in_grid(x, y) implies #[trigger] u.cell(x, y) == (if a.cell(
        x,
        y,
    ) is Oil && occupied_before(a, i + 1, x, y) {
        FieldState::Empty
    } else {
        a.cell(x, y)
    }) by {
        if c is Oil && !(x == px && y == py) {
            if y != py {
                assert(u.cells[y] == w.cells[y]);
            }
            assert(u.cell(x, y) == w.cell(x, y));
        }
    }
    assert forall|j: int| 0 <= j < a.player_num implies #[trigger] u.players[j] == (if j < i + 1 {
        Player {
            galon: if picks(a, j) {
                (a.players[j].galon + oil_in(
                    a.cell(a.players[j].cd.x as int, a.players[j].cd.y as int),
                )) as i32
            } else {
                a.players[j].galon
            },
            ..a.players[j]
        }
    } else {
        a.players[j]
    }) by {
        if j != i {
            assert(u.players[j] == w.players[j]);
        }
    }
}

/// The explosions that go on to the next turn are valid.
proof fn lemma_next_explosions_ok(es: Seq<(Coord, i32, i32)>, size: usize, j: int)
    requires
        forall|k: int| 0 <= k < es.len() ==> explosion_ok(#[trigger] es[k], size),
        0 <= j < next_explosions(es).len(),
    ensures
        explosion_ok(next_explosions(es)[j], size),
    decreases es.len(),
{
    let rest = next_explosions(es.drop_last());
    assert(explosion_ok(es[es.len() - 1], size));
    if j < rest.len() {
        lemma_next_explosions_ok(es.drop_last(), size, j);
    }
}

/// Putting a bomb on an empty cell, and its key into the bomb map, keeps both maps mirrored.
proof fn lemma_put_bom(v: GameView, w: GameView, x: int, y: int, b: BomCat)
    requires
        v.inv(),
        v.in_grid(x, y),
        v.cell(x, y) is Empty,
        w.size == v.size,
        w.cells == with_cell(v, x, y, FieldState::Bom(b)),
        w.boms == v.boms.insert(key(x, y), b),
        w.oils == v.oils,
    ensures
        w.oils_mirror(),
        w.boms_mirror(),
        !v.boms.contains_key(key(x, y)),
        w.cells.len() == w.size,
        forall|yy: int| 0 <= yy < w.size ==> (#[trigger] w.cells[yy]).len() == w.size,
        forall|xx: int, yy: int|
            w.in_grid(xx, yy) ==> w.cell(xx, yy) == (if xx == x && yy == y {
                FieldState::Bom(b)
            } else {
                v.cell(xx, yy)
            }),
{
    assert forall|xx: int, yy: int|
        w.in_grid(xx, yy) implies w.cell(xx, yy) == (if xx == x && yy == y {
            FieldState::Bom(b)
        } else {
            v.cell(xx, yy)
        }) by {
        if yy != y {
            assert(w.cells[yy] == v.cells[yy]);
        }
    }
    assert forall|xx: int, yy: int| w.in_grid(xx, yy) && (xx != x || yy != y) implies key(xx, yy)
        != key(x, y) by {
        assert(xx as i32 as int == xx && yy as i32 as int == yy);
    }
}

/// Every game in a state that its operations reach satisfies the game invariant: the maps
/// mirror the field, everything lies on the field, and the bombs on the field and those
/// picked up never outnumber the bomb stock.
pub proof fn lemma_wf_inv(g: &Game)
    requires
        g.wf(),
    ensures
        g@.inv(),
        g@.boms.len() + g@.player_bom <= g@.bom_num,
        g@.oils.len() <= g@.oil_num,
{
}

/// A refused action changes nothing.
pub proof fn lemma_refused_act_changes_nothing(v: GameView, pid: int, ac: Action)
    requires
        v.inv(),
        0 <= pid < v.player_num,
        !act_spec(v, pid, ac).1,
    ensures
        act_spec(v, pid, ac).0 == v,
{
}

/// Picking up a safe bomb and dropping it at once puts it back where it was, armed by the
/// player: the player and the bomb count are as before.
pub proof fn lemma_pick_then_drop(v: GameView, pid: int)
    requires
        v.inv(),
        0 <= pid < v.player_num,
        v.players[pid].bom is None,
        v.cell(v.players[pid].cd.x as int, v.players[pid].cd.y as int) matches FieldState::Bom(
            BomCat::Safe(_),
        ),
    ensures
        ({
            let cur = v.players[pid].cd;
            let d = bom_dist(v.cell(cur.x as int, cur.y as int));
            let (w, ok1) = act_spec(v, pid, Action::PickBom);
            let (u, ok2) = act_spec(w, pid, Action::DropBom);
            &&& ok1
            &&& ok2
            &&& u.players == v.players
            &&& u.player_bom == v.player_bom
            &&& u.oils == v.oils
            &&& u.boms == v.boms.insert(key(cur.x as int, cur.y as int), BomCat::Ready((d, pid as usize)))
            &&& u.cells == with_cell(v, cur.x as int, cur.y as int, FieldState::Bom(BomCat::Ready((d, pid as usize))))
            &&& u.explosions == v.explosions
        }),
{
    let cur = v.players[pid].cd;
    assert(v.players_ok());
    assert(v.in_grid(cur.x as int, cur.y as int));
    let (w, ok1) = act_spec(v, pid, Action::PickBom);
    assert(w.players[pid].cd == cur);
    let b = FieldState::Bom(BomCat::Ready((bom_dist(v.cell(cur.x as int, cur.y as int)), pid as usize)));
    assert(w.cells[cur.y as int] == v.cells[cur.y as int].update(cur.x as int, FieldState::Empty));
    assert(w.cells[cur.y as int].update(cur.x as int, b) =~= v.cells[cur.y as int].update(cur.x as int, b));
    assert(w.cell(cur.x as int, cur.y as int) == FieldState::Empty);
    let (u, ok2) = act_spec(w, pid, Action::DropBom);
    assert(u.players =~= v.players);
    assert(u.boms =~= v.boms.insert(key(cur.x as int, cur.y as int), BomCat::Ready((bom_dist(v.cell(cur.x as int, cur.y as int)), pid as usize))));
    assert(u.cells =~= with_cell(v, cur.x as int, cur.y as int, FieldState::Bom(BomCat::Ready((bom_dist(v.cell(cur.x as int, cur.y as int)), pid as usize)))));
}

/// A step up followed by a step down brings a player back to where it stood.
pub proof fn lemma_up_then_down(v: GameView, pid: int)
    requires
        v.inv(),
        0 <= pid < v.player_num,
    ensures
        ({
            let (w, _) = act_spec(v, pid, Action::Move(0));
            let (u, _) = act_spec(w, pid, Action::Move(3));
            act_spec(v, pid, Action::Move(0)).1 ==> u.players[pid].cd == v.players[pid].cd
        }),
{
    let (w, ok) = act_spec(v, pid, Action::Move(0));
    if ok {
        assert(w.players.len() == v.players.len());
        assert(w.size == v.size);
    }
}

/// No player sets off its own bomb.
pub proof fn lemma_own_bomb_is_safe(v: GameView, i: usize, x: int, y: int, d: i32)
    requires
        v.cell(x, y) == FieldState::Bom(BomCat::Ready((d, i))),
    ensures
        !sets_off(v, i as int, x, y),
{
}

/// Each explosion that goes on to the next turn is one turn older and has one turn less to
/// go; so an explosion of blast distance `d` spreads for `d + 1` turns.
pub proof fn lemma_explosions_age(es: Seq<(Coord, i32, i32)>, size: usize)
    requires
        forall|k: int| 0 <= k < es.len() ==> explosion_ok(#[trigger] es[k], size),
    ensures
        next_explosions(es).len() <= es.len(),
        forall|k: int| 0 <= k < next_explosions(es).len() ==> (#[trigger] next_explosions(es)[k]).2 >= 1,
        (forall|k: int| 0 <= k < es.len() ==> (#[trigger] es[k]).2 == es[k].1) ==> next_explosions(es).len() == 0,
    decreases es.len(),
{
    if es.len() > 0 {
        lemma_explosions_age(es.drop_last(), size);
        assert(explosion_ok(es[es.len() - 1], size));
        let rest = next_explosions(es.drop_last());
        assert forall|k: int| 0 <= k < next_explosions(es).len() implies (#[trigger] next_explosions(es)[k]).2 >= 1 by {
            if k < rest.len() {
                assert(next_explosions(es)[k] == rest[k]);
            }
        }
        if forall|k: int| 0 <= k < es.len() ==> (#[trigger] es[k]).2 == es[k].1 {
            assert forall|k: int| 0 <= k < es.drop_last().len() implies (#[trigger] es.drop_last()[k]).2 == es.drop_last()[k].1 by {
                assert(es.drop_last()[k] == es[k]);
            }
            assert(es[es.len() - 1].2 == es[es.len() - 1].1);
        }
    }
}

/// After the blast check nothing is left to set off: a second check right away finds nothing.
pub proof fn lemma_detonate_twice(v: GameView, w: GameView, res: bool)
    requires
        v.inv(),
        detonated(v, w, res),
    ensures
        forall|x: int, y: int| !#[trigger] set_off(w, x, y),
{
    assert forall|x: int, y: int| !#[trigger] set_off(w, x, y) by {
        if set_off(w, x, y) {
            let i = choose|i: int| 0 <= i < w.player_num && #[trigger] sets_off(w, i, x, y);
            assert(w.cell(x, y) == (if set_off(v, x, y) {
                FieldState::Empty
            } else {
                v.cell(x, y)
            }));
            assert(!set_off(v, x, y));
            assert(sets_off(v, i, x, y));
        }
    }
}

/// While the bombs picked up and not yet dropped are exactly those the players carry, an
/// action keeps them so, unless a player that already carries a bomb picks up another:
/// the carried bomb is then replaced and no longer carried by anyone.
pub proof fn lemma_act_keeps_carrier_count(v: GameView, pid: int, ac: Action)
    requires
        v.inv(),
        0 <= pid < v.player_num,
        holders(v.players) == v.player_bom,
        !(ac is PickBom && v.players[pid].bom is Some),
    ensures
        holders(act_spec(v, pid, ac).0.players) == act_spec(v, pid, ac).0.player_bom,
{
    let p = v.players[pid];
    let (w, ok) = act_spec(v, pid, ac);
    if ok && w != v {
        lemma_holders_update(v.players, pid, w.players[pid]);
        assert(w.players =~= v.players.update(pid, w.players[pid]));
    }
}

/// Emptying the wells under the players takes at most one well per player: the wells left
/// and the players together are at least as many as the wells there were.
pub proof fn lemma_collect_takes_a_well_per_player(a: GameView, b: GameView)
    requires
        a.inv(),
        b.inv(),
        collected(a, b),
    ensures
        a.oils.len() <= b.oils.len() + a.player_num,
{
    broadcast use vstd::seq_lib::seq_to_set_is_finite;

    let ks = a.players.map_values(|p: Player| (p.cd.x, p.cd.y));
    ks.lemma_cardinality_of_set();
    let s = ks.to_set();
    assert(a.oils.dom().subset_of(b.oils.dom().union(s))) by {
        assert forall|k: (i32, i32)| a.oils.dom().contains(k) implies b.oils.dom().union(
            s,
        ).contains(k) by {
            let (x, y) = (k.0 as int, k.1 as int);
            assert(a.in_grid(x, y));
            assert(key(x, y) == k);
            assert(a.cell(x, y) is Oil);
            if !b.oils.contains_key(k) {
                assert(b.in_grid(x, y));
                assert(!(b.cell(x, y) is Oil));
                assert(occupied(a, x, y));
                let i = choose|i: int|
                    0 <= i < a.player_num && (#[trigger] a.players[i]).cd == Coord {
                        x: x as i32,
                        y: y as i32,
                    };
                assert(ks[i] == k);
                assert(ks.contains(k));
            }
        }
    }
    vstd::set_lib::lemma_len_union(b.oils.dom(), s);
    vstd::set_lib::lemma_len_subset(a.oils.dom(), b.oils.dom().union(s));
}

/// No action brings a dead player back or kills one; only explosions kill.
pub proof fn lemma_act_keeps_life(v: GameView, pid: int, ac: Action, i: int)
    requires
        v.inv(),
        0 <= pid < v.player_num,
        0 <= i < v.player_num,
    ensures
        act_spec(v, pid, ac).0.players[i].is_alive == v.players[i].is_alive,
{
}

/// A turn of the explosions never brings a dead player back.
pub proof fn lemma_spread_keeps_dead(v: GameView, w: GameView, r: BlastStep, i: int)
    requires
        v.inv(),
        spread(v, w, r),
        0 <= i < v.player_num,
    ensures
        w.players[i].is_alive ==> v.players[i].is_alive,
{
}

/// The number of line breaks in `s`.
pub open spec fn newlines(s: Seq<char>) -> nat
    decreases s.len(),
{
    if s.len() == 0 {
        0
    } else {
        newlines(s.drop_last()) + if s.last() == '\n' {
            1nat
        } else {
            0nat
        }
    }
}

/// Whether cell content `c` is a well (`oil`) or a bomb.
pub open spec fn is_kind(c: FieldState, oil: bool) -> bool {
    if oil {
        c is Oil
    } else {
        c is Bom
    }
}

/// The number of wells (`oil`) or bombs in rows `0..n` of column `x`.
pub open spec fn column_count(v: GameView, x: int, n: int, oil: bool) -> nat
    decreases n,
{
    if n <= 0 {
        0
    } else {
        column_count(v, x, n - 1, oil) + if is_kind(v.cell(x, n - 1), oil) {
            1nat
        } else {
            0nat
        }
    }
}

/// The number of wells (`oil`) or bombs in columns `0..n`.
pub open spec fn cells_count(v: GameView, n: int, oil: bool) -> nat
    decreases n,
{
    if n <= 0 {
        0
    } else {
        cells_count(v, n - 1, oil) + column_count(v, n - 1, v.size as int, oil)
    }
}

/// The keys of the wells (`oil`) or bombs in columns before `n`, and in column `n` above row `m`.
spec fn keys_before(v: GameView, n: int, m: int, oil: bool) -> Set<(i32, i32)> {
    Set::new(
        |k: (i32, i32)|
            v.in_grid(k.0 as int, k.1 as int) && (k.0 < n || (k.0 == n && k.1 < m)) && is_kind(
                v.cell(k.0 as int, k.1 as int),
                oil,
            ),
    )
}

proof fn lemma_newlines_add(a: Seq<char>, b: Seq<char>)
    ensures
        newlines(a + b) == newlines(a) + newlines(b),
    decreases b.len(),
{
    if b.len() > 0 {
        lemma_newlines_add(a, b.drop_last());
        assert((a + b).drop_last() =~= a + b.drop_last());
    } else {
        assert(a + b =~= a);
    }
}

proof fn lemma_dec_nat_no_newline(n: nat)
    ensures
        newlines(crate::text::dec_nat(n)) == 0,
    decreases n,
{
    let d = crate::text::dec_nat(n);
    assert(crate::text::digit_char((n % 10) as int) != '\n');
    assert(d.len() > 0);
    assert(d.last() == crate::text::digit_char((n % 10) as int));
    if n >= 10 {
        lemma_dec_nat_no_newline(n / 10);
        assert(d.drop_last() =~= crate::text::dec_nat(n / 10));
    } else {
        assert(d.drop_last() =~= Seq::<char>::empty());
    }
    assert(newlines(d) == newlines(d.drop_last()));
}

proof fn lemma_dec_no_newline(i: int)
    ensures
        newlines(dec(i)) == 0,
{
    if i < 0 {
        lemma_dec_nat_no_newline((-i) as nat);
        lemma_newlines_add(seq!['-'], crate::text::dec_nat((-i) as nat));
        assert(seq!['-'].drop_last() =~= Seq::<char>::empty());
        assert(newlines(seq!['-']) == newlines(Seq::<char>::empty()));
    } else {
        lemma_dec_nat_no_newline(i as nat);
    }
}

proof fn lemma_line3_one_newline(a: int, b: int, c: int)
    ensures
        newlines(line3(a, b, c)) == 1,
{
    lemma_dec_no_newline(a);
    lemma_dec_no_newline(b);
    lemma_dec_no_newline(c);
    let sp = seq![' '];
    let nl = seq!['\n'];
    assert(sp.drop_last() =~= Seq::<char>::empty());
    assert(nl.drop_last() =~= Seq::<char>::empty());
    lemma_newlines_add(dec(a), sp);
    lemma_newlines_add(dec(a) + sp, dec(b));
    lemma_newlines_add(dec(a) + sp + dec(b), sp);
    lemma_newlines_add(dec(a) + sp + dec(b) + sp, dec(c));
    lemma_newlines_add(dec(a) + sp + dec(b) + sp + dec(c), nl);
    assert(newlines(sp) == newlines(Seq::<char>::empty()));
    assert(newlines(nl) == newlines(Seq::<char>::empty()) + 1);
}

proof fn lemma_column_text_lines(v: GameView, x: int, n: int, oil: bool)
    ensures
        newlines(column_text(v, x, n, oil)) == column_count(v, x, n, oil),
    decreases n,
{
    if n > 0 {
        lemma_column_text_lines(v, x, n - 1, oil);
        let c = v.cell(x, n - 1);
        let line = if oil {
            oil_line(x, n - 1, c)
        } else {
            bom_line(x, n - 1, c)
        };
        lemma_newlines_add(column_text(v, x, n - 1, oil), line);
        match c {
            FieldState::Oil(g) => {
                lemma_line3_one_newline(x, n - 1, g as int);
            },
            FieldState::Bom(BomCat::Safe(_)) => {
                lemma_line3_one_newline(x, n - 1, -1);
            },
            FieldState::Bom(BomCat::Ready((_, id))) => {
                lemma_line3_one_newline(x, n - 1, (id as i32) as int);
            },
            FieldState::Empty => {},
        }
    }
}

proof fn lemma_cells_text_lines(v: GameView, n: int, oil: bool)
    ensures
        newlines(cells_text(v, n, oil)) == cells_count(v, n, oil),
    decreases n,
{
    if n > 0 {
        lemma_cells_text_lines(v, n - 1, oil);
        lemma_column_text_lines(v, n - 1, v.size as int, oil);
        lemma_newlines_add(cells_text(v, n - 1, oil), column_text(v, n - 1, v.size as int, oil));
    }
}

proof fn lemma_keys_before_len(v: GameView, n: int, m: int, oil: bool)
    requires
        v.inv(),
        (0 <= n < v.size && 0 <= m <= v.size) || (n == v.size && m == 0),
    ensures
        keys_before(v, n, m, oil).finite(),
        keys_before(v, n, m, oil).len() == cells_count(v, n, oil) + column_count(v, n, m, oil),
    decreases n, m,
{
    if m > 0 {
        lemma_keys_before_len(v, n, m - 1, oil);
        let prev = keys_before(v, n, m - 1, oil);
        let k = key(n, m - 1);
        if is_kind(v.cell(n, m - 1), oil) {
            assert(keys_before(v, n, m, oil) =~= prev.insert(k));
            assert(!prev.contains(k));
        } else {
            assert(keys_before(v, n, m, oil) =~= prev);
        }
    } else if n > 0 {
        lemma_keys_before_len(v, n - 1, v.size as int, oil);
        assert(keys_before(v, n, 0, oil) =~= keys_before(v, n - 1, v.size as int, oil));
    } else {
        assert(keys_before(v, 0, 0, oil) =~= Set::empty());
    }
}

/// The text that tells an AI the state gives, before the wells and before the bombs, their
/// numbers; and exactly that many lines follow each.
pub proof fn lemma_state_text_counts(v: GameView)
    requires
        v.inv(),
    ensures
        newlines(cells_text(v, v.size as int, true)) == v.oils.len(),
        newlines(cells_text(v, v.size as int, false)) == v.boms.len(),
{
    lemma_cells_text_lines(v, v.size as int, true);
    lemma_cells_text_lines(v, v.size as int, false);
    lemma_keys_before_len(v, v.size as int, 0, true);
    lemma_keys_before_len(v, v.size as int, 0, false);
    assert(v.oils.dom() =~= keys_before(v, v.size as int, 0, true)) by {
        assert forall|k: (i32, i32)| v.oils.dom().contains(k) implies keys_before(
            v,
            v.size as int,
            0,
            true,
        ).contains(k) by {
            assert(v.in_grid(k.0 as int, k.1 as int));
            assert(key(k.0 as int, k.1 as int) == k);
        }
        assert forall|k: (i32, i32)| keys_before(v, v.size as int, 0, true).contains(k) implies v.oils.dom().contains(k) by {
            assert(key(k.0 as int, k.1 as int) == k);
            assert(v.cell(k.0 as int, k.1 as int) is Oil);
        }
    }
    assert(v.boms.dom() =~= keys_before(v, v.size as int, 0, false)) by {
        assert forall|k: (i32, i32)| v.boms.dom().contains(k) implies keys_before(
            v,
            v.size as int,
            0,
            false,
        ).contains(k) by {
            assert(v.in_grid(k.0 as int, k.1 as int));
            assert(key(k.0 as int, k.1 as int) == k);
        }
        assert forall|k: (i32, i32)| keys_before(v, v.size as int, 0, false).contains(k) implies v.boms.dom().contains(k) by {
            assert(key(k.0 as int, k.1 as int) == k);
            assert(v.cell(k.0 as int, k.1 as int) is Bom);
        }
    }
}

/// Players at the same places with the same oil are written out alike.
proof fn lemma_players_text_same(ps: Seq<Player>, qs: Seq<Player>)
    requires
        ps.len() == qs.len(),
        forall|i: int|
            0 <= i < ps.len() ==> (#[trigger] ps[i]).cd == qs[i].cd && ps[i].galon == qs[i].galon,
    ensures
        players_text(ps) == players_text(qs),
    decreases ps.len(),
{
    if ps.len() > 0 {
        lemma_players_text_same(ps.drop_last(), qs.drop_last());
        assert(ps.last() == ps[ps.len() - 1]);
    }
}

/// Two fields with the same side and the same well and bomb maps write out the same lines
/// for rows `0..n` of column `x`.
proof fn lemma_column_text_same(v: GameView, w: GameView, x: int, n: int, oil: bool)
    requires
        v.board_ok(),
        w.board_ok(),
        v.size == w.size,
        v.oils == w.oils,
        v.boms == w.boms,
        0 <= x < v.size,
        n <= v.size,
    ensures
        column_text(v, x, n, oil) == column_text(w, x, n, oil),
    decreases n,
{
    if n > 0 {
        lemma_column_text_same(v, w, x, n - 1, oil);
        let y = n - 1;
        assert(v.in_grid(x, y));
        assert(w.in_grid(x, y));
        let (a, b) = (v.cell(x, y), w.cell(x, y));
        if a is Oil || b is Oil {
            assert(a == b);
        }
        if a is Bom || b is Bom {
            assert(a == b);
        }
        assert(oil_line(x, y, a) == oil_line(x, y, b));
        assert(bom_line(x, y, a) == bom_line(x, y, b));
    }
}

/// Two fields with the same side and the same well and bomb maps write out the same lines
/// for columns `0..n`.
proof fn lemma_cells_text_same(v: GameView, w: GameView, n: int, oil: bool)
    requires
        v.board_ok(),
        w.board_ok(),
        v.size == w.size,
        v.oils == w.oils,
        v.boms == w.boms,
        n <= v.size,
    ensures
        cells_text(v, n, oil) == cells_text(w, n, oil),
    decreases n,
{
    if n > 0 {
        lemma_cells_text_same(v, w, n - 1, oil);
        lemma_column_text_same(v, w, n - 1, v.size as int, oil);
    }
}

/// The text that tells an AI the state depends on the side, the number of players, where
/// each player stands and how much oil it has gathered, and the wells and bombs of the
/// field; not on the bombs players carry, who is alive, the explosions under way or the
/// stock numbers.
pub proof fn lemma_state_text_depends_on(v: GameView, w: GameView, pid: int)
    requires
        v.inv(),
        w.inv(),
        v.size == w.size,
        v.player_num == w.player_num,
        forall|i: int|
            0 <= i < v.player_num ==> (#[trigger] v.players[i]).cd == w.players[i].cd
                && v.players[i].galon == w.players[i].galon,
        v.oils == w.oils,
        v.boms == w.boms,
    ensures
        state_text(v, pid) == state_text(w, pid),
{
    lemma_players_text_same(v.players, w.players);
    lemma_cells_text_same(v, w, v.size as int, true);
    lemma_cells_text_same(v, w, v.size as int, false);
}

/// One more check of the blast check adds at most the checked cell to what is set off.
proof fn lemma_done_step(v: GameView, s: int, i: int, dx: int, dy: int)
    requires
        v.inv(),
        0 <= i < v.player_num,
        -5 <= dx <= 5,
        -5 <= dy <= 5,
        s == i * 121 + (dx + 5) * 11 + (dy + 5),
    ensures
        forall|x: int, y: int|
            #![trigger done_by(v, s + 1, x, y)]
            done_by(v, s + 1, x, y) == (done_by(v, s, x, y) || (x == v.players[i].cd.x + dx && y
                == v.players[i].cd.y + dy && sets_off(v, i, x, y))),
{
    assert forall|x: int, y: int|
        #![trigger done_by(v, s + 1, x, y)]
        done_by(v, s + 1, x, y) == (done_by(v, s, x, y) || (x == v.players[i].cd.x + dx && y
            == v.players[i].cd.y + dy && sets_off(v, i, x, y))) by {
        if done_by(v, s + 1, x, y) {
            let j = choose|j: int|
                0 <= j < v.player_num && #[trigger] sets_off(v, j, x, y) && check_rank(v, j, x, y)
                    < s + 1;
            if check_rank(v, j, x, y) < s {
                assert(done_by(v, s, x, y));
            } else {
                assert(check_rank(v, j, x, y) == s);
                assert(j == i);
            }
        }
        if x == v.players[i].cd.x + dx && y == v.players[i].cd.y + dy && sets_off(v, i, x, y) {
            assert(check_rank(v, i, x, y) == s);
        }
        if done_by(v, s, x, y) {
            let j = choose|j: int|
                0 <= j < v.player_num && #[trigger] sets_off(v, j, x, y) && check_rank(v, j, x, y)
                    < s;
            assert(check_rank(v, j, x, y) < s + 1);
        }
    }
}

/// A check that sets nothing off leaves the progress of the blast check as it was.
proof fn lemma_detonation_skip(v: GameView, w: GameView, s: int, i: int, dx: int, dy: int)
    requires
        v.inv(),
        0 <= i < v.player_num,
        -5 <= dx <= 5,
        -5 <= dy <= 5,
        s == i * 121 + (dx + 5) * 11 + (dy + 5),
        detonation_progress(v, w, s, false) || detonation_progress(v, w, s, true),
        ({
            let x = v.players[i].cd.x + dx;
            let y = v.players[i].cd.y + dy;
            !(v.in_grid(x, y) && !done_by(v, s, x, y) && sets_off(v, i, x, y))
        }),
        forall|x: int, y: int|
            #![trigger done_by(v, s + 1, x, y)]
            done_by(v, s + 1, x, y) == (done_by(v, s, x, y) || (x == v.players[i].cd.x + dx && y
                == v.players[i].cd.y + dy && sets_off(v, i, x, y))),
    ensures
        forall|res: bool| detonation_progress(v, w, s, res) ==> detonation_progress(v, w, s + 1, res),
{
    assert forall|x: int, y: int| v.in_grid(x, y) implies #[trigger] done_by(v, s + 1, x, y)
        == done_by(v, s, x, y) by {
        if x == v.players[i].cd.x + dx && y == v.players[i].cd.y + dy && sets_off(v, i, x, y) {
            assert(done_by(v, s, x, y));
        }
    }
}

/// A check that sets a bomb off moves the progress of the blast check one step.
proof fn lemma_detonation_fire(v: GameView, w: GameView, u: GameView, s: int, i: int, q: Coord)
    requires
        v.inv(),
        0 <= i < v.player_num,
        detonation_progress(v, w, s, false) || detonation_progress(v, w, s, true),
        v.in_grid(q.x as int, q.y as int),
        s == check_rank(v, i, q.x as int, q.y as int),
        !done_by(v, s, q.x as int, q.y as int),
        sets_off(v, i, q.x as int, q.y as int),
        forall|x: int, y: int|
            #![trigger done_by(v, s + 1, x, y)]
            done_by(v, s + 1, x, y) == (done_by(v, s, x, y) || (x == q.x && y == q.y && sets_off(
                v,
                i,
                x,
                y,
            ))),
        u.oils_mirror(),
        u.boms_mirror(),
        u.cells.len() == u.size,
        forall|yy: int| 0 <= yy < u.size ==> (#[trigger] u.cells[yy]).len() == u.size,
        forall|xx: int, yy: int|
            u.in_grid(xx, yy) ==> u.cell(xx, yy) == (if xx == q.x && yy == q.y {
                FieldState::Empty
            } else {
                w.cell(xx, yy)
            }),
        u.boms == w.boms.remove(key(q.x as int, q.y as int)),
        u.explosions == w.explosions.push((q, bom_dist(v.cell(q.x as int, q.y as int)), 0i32)),
        u.size == w.size,
        u.player_num == w.player_num,
        u.players == w.players,
        u.oils == w.oils,
        u.oil_num == w.oil_num,
        u.bom_num == w.bom_num,
        u.player_bom == w.player_bom,
    ensures
        detonation_progress(v, u, s + 1, true),
{
    let n0 = v.explosions.len() as int;
    let qx = q.x as int;
    let qy = q.y as int;
    assert(w.cell(qx, qy) == v.cell(qx, qy));
    assert(w.boms.contains_key(key(qx, qy)));
    assert(u.boms.len() == w.boms.len() - 1);
    assert forall|x: int, y: int| u.in_grid(x, y) implies cell_ok(
        #[trigger] u.cell(x, y),
        u.player_num,
    ) by {
        if !(x == qx && y == qy) {
            assert(cell_ok(w.cell(x, y), w.player_num));
        }
    }
    assert forall|x: int, y: int| v.in_grid(x, y) implies #[trigger] u.cell(x, y) == (if done_by(
        v,
        s + 1,
        x,
        y,
    ) {
        FieldState::Empty
    } else {
        v.cell(x, y)
    }) by {
        assert(done_by(v, s + 1, x, y) == (done_by(v, s, x, y) || (x == q.x && y == q.y
            && sets_off(v, i, x, y))));
        if !(x == qx && y == qy) {
            assert(u.cell(x, y) == w.cell(x, y));
        }
    }
    let entry = (q, bom_dist(v.cell(qx, qy)), 0i32);
    assert(is_first_check(v, qx, qy, s)) by {
        assert forall|j: int| 0 <= j < v.player_num && #[trigger] sets_off(v, j, qx, qy) implies s
            <= check_rank(v, j, qx, qy) by {
            if check_rank(v, j, qx, qy) < s {
                assert(done_by(v, s, qx, qy));
            }
        }
    }
    lemma_first_check_unique(v, qx, qy, s);
    assert(cell_ok(v.cell(qx, qy), v.player_num));
    assert forall|k: int| 0 <= k < u.explosions.len() implies explosion_ok(
        #[trigger] u.explosions[k],
        u.size,
    ) by {
        if k < w.explosions.len() {
            assert(u.explosions[k] == w.explosions[k]);
        }
    }
    assert(u.explosions.subrange(0, n0) =~= w.explosions.subrange(0, n0));
    let e = w.explosions.skip(n0);
    let f = u.explosions.skip(n0);
    assert(f =~= e.push(entry));
    assert forall|j: int| 0 <= j < f.len() implies {
        &&& done_by(v, s + 1, (#[trigger] f[j]).0.x as int, f[j].0.y as int)
        &&& f[j].1 == bom_dist(v.cell(f[j].0.x as int, f[j].0.y as int))
        &&& f[j].2 == 0
    } by {
        if j < e.len() {
            assert(f[j] == e[j]);
            assert(done_by(v, s, e[j].0.x as int, e[j].0.y as int));
            assert(done_by(v, s + 1, e[j].0.x as int, e[j].0.y as int) == (done_by(
                v,
                s,
                e[j].0.x as int,
                e[j].0.y as int,
            ) || (e[j].0.x == q.x && e[j].0.y == q.y && sets_off(
                v,
                i,
                e[j].0.x as int,
                e[j].0.y as int,
            ))));
        } else {
            assert(done_by(v, s + 1, qx, qy) == (done_by(v, s, qx, qy) || (qx == q.x && qy == q.y
                && sets_off(v, i, qx, qy))));
        }
    }
    assert forall|j: int| 0 <= j < f.len() implies is_first_check(v, (#[trigger] f[j]).0.x as int, f[j].0.y as int, first_check(v, f[j].0.x as int, f[j].0.y as int))
        && first_check(v, f[j].0.x as int, f[j].0.y as int) < s + 1 by {
        if j < e.len() {
            assert(f[j] == e[j]);
        }
    }
    assert forall|j: int, k: int|
        0 <= j < k < f.len() implies first_check(v, (#[trigger] f[j]).0.x as int, f[j].0.y as int)
            < first_check(v, (#[trigger] f[k]).0.x as int, f[k].0.y as int) by {
        assert(f[j] == e[j]);
        if k < e.len() {
            assert(f[k] == e[k]);
        }
    }
    assert forall|j: int, k: int| 0 <= j < k < f.len() implies (#[trigger] f[j]).0 != (
    #[trigger] f[k]).0 by {
        if k < e.len() {
            assert(f[j] == e[j] && f[k] == e[k]);
        } else {
            assert(f[j] == e[j]);
            assert(done_by(v, s, e[j].0.x as int, e[j].0.y as int));
        }
    }
    assert forall|x: int, y: int| v.in_grid(x, y) && #[trigger] done_by(v, s + 1, x, y) implies exists|
        j: int,
    | 0 <= j < f.len() && (#[trigger] f[j]).0 == Coord { x: x as i32, y: y as i32 } by {
        if done_by(v, s, x, y) {
            let j = choose|j: int|
                0 <= j < e.len() && (#[trigger] e[j]).0 == Coord { x: x as i32, y: y as i32 };
            assert(f[j] == e[j]);
        } else {
            assert(x == q.x && y == q.y);
            assert(f[e.len() as int] == entry);
            assert(f[e.len() as int].0 == Coord { x: x as i32, y: y as i32 });
        }
    }
}

/// The first check that sets off a bomb is a single place.
proof fn lemma_first_check_unique(v: GameView, x: int, y: int, r: int)
    requires
        is_first_check(v, x, y, r),
    ensures
        first_check(v, x, y) == r,
{
    let r2 = first_check(v, x, y);
    assert(is_first_check(v, x, y, r2));
    let j1 = choose|j: int| 0 <= j < v.player_num && #[trigger] sets_off(v, j, x, y) && check_rank(v, j, x, y) == r;
    let j2 = choose|j: int| 0 <= j < v.player_num && #[trigger] sets_off(v, j, x, y) && check_rank(v, j, x, y) == r2;
    assert(r <= check_rank(v, j2, x, y));
    assert(r2 <= check_rank(v, j1, x, y));
}

/// After every player's checks, the progress of the blast check is what a turn's blast check does.
proof fn lemma_detonation_end(v: GameView, w: GameView, res: bool)
    requires
        v.inv(),
        detonation_progress(v, w, v.player_num * 121, res),
    ensures
        detonated(v, w, res),
{
    let s = v.player_num * 121;
    assert forall|x: int, y: int| #[trigger] done_by(v, s, x, y) == set_off(v, x, y) by {
        if set_off(v, x, y) {
            let j = choose|j: int| 0 <= j < v.player_num && #[trigger] sets_off(v, j, x, y);
            assert(check_rank(v, j, x, y) < s);
        }
    }
    let e = w.explosions.skip(v.explosions.len() as int);
    assert forall|x: int, y: int| v.in_grid(x, y) && #[trigger] set_off(v, x, y) implies exists|
        j: int,
    | 0 <= j < e.len() && (#[trigger] e[j]).0 == Coord { x: x as i32, y: y as i32 } by {
        assert(done_by(v, s, x, y));
    }
    assert forall|j: int| 0 <= j < e.len() implies set_off(
        v,
        (#[trigger] e[j]).0.x as int,
        e[j].0.y as int,
    ) by {
        assert(done_by(v, s, e[j].0.x as int, e[j].0.y as int));
    }
    assert forall|x: int, y: int| v.in_grid(x, y) implies #[trigger] w.cell(x, y) == (if set_off(
        v,
        x,
        y,
    ) {
        FieldState::Empty
    } else {
        v.cell(x, y)
    }) by {
        assert(done_by(v, s, x, y) == set_off(v, x, y));
    }
}

/// No player of a fresh game carries a bomb.
proof fn lemma_holders_none(ps: Seq<Player>)
    requires
        forall|i: int| 0 <= i < ps.len() ==> (#[trigger] ps[i]).bom is None,
    ensures
        holders(ps) == 0,
    decreases ps.len(),
{
    if ps.len() > 0 {
        lemma_holders_none(ps.drop_last());
    }
}

/// Whether `t` occurs in `s` as a run of consecutive characters.
pub open spec fn has_part(s: Seq<char>, t: Seq<char>) -> bool {
    exists|a: Seq<char>, b: Seq<char>| #[trigger] (a + t + b) == s
}

/// What occurs in a text still occurs in it with more text put before or after it.
proof fn lemma_has_part_extend(s: Seq<char>, t: Seq<char>, p: Seq<char>, q: Seq<char>)
    requires
        has_part(s, t),
    ensures
        has_part(p + s, t),
        has_part(s + q, t),
{
    let (a, b) = choose|a: Seq<char>, b: Seq<char>| #[trigger] (a + t + b) == s;
    assert((p + a) + t + b == p + s);
    assert(a + t + (b + q) == s + q);
}

/// A text holds what it ends with.
proof fn lemma_has_part_end(s: Seq<char>, t: Seq<char>)
    ensures
        has_part(s + t, t),
{
    assert(s + t + Seq::<char>::empty() == s + t);
}

/// The lines of the cells of column `x` in rows `0..n` hold the line of each such cell.
proof fn lemma_column_text_has(v: GameView, x: int, n: int, oil: bool, y: int)
    requires
        0 <= y < n,
    ensures
        has_part(
            column_text(v, x, n, oil),
            if oil {
                oil_line(x, y, v.cell(x, y))
            } else {
                bom_line(x, y, v.cell(x, y))
            },
        ),
    decreases n,
{
    let l = if oil {
        oil_line(x, n - 1, v.cell(x, n - 1))
    } else {
        bom_line(x, n - 1, v.cell(x, n - 1))
    };
    assert(column_text(v, x, n, oil) == column_text(v, x, n - 1, oil) + l);
    if y == n - 1 {
        lemma_has_part_end(column_text(v, x, n - 1, oil), l);
    } else {
        lemma_column_text_has(v, x, n - 1, oil, y);
        lemma_has_part_extend(column_text(v, x, n - 1, oil), if oil {
            oil_line(x, y, v.cell(x, y))
        } else {
            bom_line(x, y, v.cell(x, y))
        }, Seq::empty(), l);
    }
}

/// The lines of the cells of columns `0..n` hold the line of each cell of those columns.
proof fn lemma_cells_text_has(v: GameView, n: int, oil: bool, x: int, y: int)
    requires
        0 <= x < n,
        0 <= y < v.size,
    ensures
        has_part(
            cells_text(v, n, oil),
            if oil {
                oil_line(x, y, v.cell(x, y))
            } else {
                bom_line(x, y, v.cell(x, y))
            },
        ),
    decreases n,
{
    let t = if oil {
        oil_line(x, y, v.cell(x, y))
    } else {
        bom_line(x, y, v.cell(x, y))
    };
    let c = column_text(v, n - 1, v.size as int, oil);
    assert(cells_text(v, n, oil) == cells_text(v, n - 1, oil) + c);
    if x == n - 1 {
        lemma_column_text_has(v, x, v.size as int, oil, y);
        lemma_has_part_extend(c, t, cells_text(v, n - 1, oil), Seq::empty());
    } else {
        lemma_cells_text_has(v, n - 1, oil, x, y);
        lemma_has_part_extend(cells_text(v, n - 1, oil), t, Seq::empty(), c);
    }
}

/// The player lines hold, for each player, its column, its row and the oil it has gathered.
proof fn lemma_players_text_has(ps: Seq<Player>, i: int)
    requires
        0 <= i < ps.len(),
    ensures
        has_part(players_text(ps), line3(ps[i].cd.x as int, ps[i].cd.y as int, ps[i].galon as int)),
    decreases ps.len(),
{
    let l = line3(ps.last().cd.x as int, ps.last().cd.y as int, ps.last().galon as int);
    assert(players_text(ps) == players_text(ps.drop_last()) + l);
    if i == ps.len() - 1 {
        lemma_has_part_end(players_text(ps.drop_last()), l);
    } else {
        lemma_players_text_has(ps.drop_last(), i);
        assert(ps.drop_last()[i] == ps[i]);
        lemma_has_part_extend(players_text(ps.drop_last()), line3(ps[i].cd.x as int, ps[i].cd.y as int, ps[i].galon as int), Seq::empty(), l);
    }
}

/// The text that tells an AI the state holds a line for each player: its column, row
/// and oil gathered; a line for each oil well: column, row and the oil in it; a line for
/// each safe bomb: column, row and `-1`; and a line for each armed bomb: column, row and
/// the number of the player who dropped it (as an `i32`).
pub proof fn lemma_state_text_lists_everything(v: GameView, pid: int, x: int, y: int, i: int)
    requires
        v.inv(),
        v.in_grid(x, y),
        0 <= i < v.player_num,
    ensures
        has_part(
            state_text(v, pid),
            line3(v.players[i].cd.x as int, v.players[i].cd.y as int, v.players[i].galon as int),
        ),
        v.cell(x, y) matches FieldState::Oil(g) ==> has_part(state_text(v, pid), line3(x, y, g as int)),
        v.cell(x, y) matches FieldState::Bom(BomCat::Safe(_)) ==> has_part(
            state_text(v, pid),
            line3(x, y, -1),
        ),
        v.cell(x, y) matches FieldState::Bom(BomCat::Ready((_, id))) ==> has_part(
            state_text(v, pid),
            line3(x, y, (id as i32) as int),
        ),
{
    let head = dec(v.size as int) + seq!['\n'] + line2(v.player_num as int, pid);
    let pt = players_text(v.players);
    let mid = dec(v.oils.len() as int) + seq!['\n'];
    let ot = cells_text(v, v.size as int, true);
    let mid2 = dec(v.boms.len() as int) + seq!['\n'];
    let bt = cells_text(v, v.size as int, false);
    let st = state_text(v, pid);
    assert(st == head + pt + mid + ot + mid2 + bt);
    let i_line = line3(v.players[i].cd.x as int, v.players[i].cd.y as int, v.players[i].galon as int);
    lemma_players_text_has(v.players, i);
    lemma_has_part_extend(pt, i_line, head, Seq::empty());
    lemma_has_part_extend(head + pt, i_line, Seq::empty(), mid + ot + mid2 + bt);
    assert(head + pt + (mid + ot + mid2 + bt) == st);
    lemma_cells_text_has(v, v.size as int, true, x, y);
    let o_line = oil_line(x, y, v.cell(x, y));
    lemma_has_part_extend(ot, o_line, head + pt + mid, Seq::empty());
    lemma_has_part_extend(head + pt + mid + ot, o_line, Seq::empty(), mid2 + bt);
    assert(head + pt + mid + ot + (mid2 + bt) == st);
    lemma_cells_text_has(v, v.size as int, false, x, y);
    let b_line = bom_line(x, y, v.cell(x, y));
    lemma_has_part_extend(bt, b_line, head + pt + mid + ot + mid2, Seq::empty());
}

/// Only a safe bomb is picked up. On a cell without one, picking up is refused and changes
/// nothing: an armed bomb stays where it lies. On a safe bomb of distance `d`, the player
/// carries `d`, stays where it stands, the cell is emptied and the bomb leaves the bomb map,
/// and one more bomb is counted as picked up.
pub proof fn lemma_pick_only_safe(v: GameView, pid: int)
    requires
        v.inv(),
        0 <= pid < v.player_num,
    ensures
        ({
            let cur = v.players[pid].cd;
            let (w, ok) = act_spec(v, pid, Action::PickBom);
            &&& !(v.cell(cur.x as int, cur.y as int) is Bom && v.cell(cur.x as int, cur.y as int)->Bom_0 is Safe)
                ==> (w == v && !ok)
            &&& v.cell(cur.x as int, cur.y as int) matches FieldState::Bom(BomCat::Safe(d)) ==> {
                &&& ok
                &&& w.players[pid].bom == Some(d)
                &&& w.players[pid].cd == cur
                &&& w.cell(cur.x as int, cur.y as int) is Empty
                &&& !w.boms.contains_key((cur.x, cur.y))
                &&& w.player_bom == v.player_bom + 1
            }
        }),
{
}

/// Whether player `i` stands within `d` cells, across and down, of column `x`, row `y`.
pub open spec fn near(v: GameView, i: int, x: int, y: int, d: int) -> bool {
    let p = v.players[i].cd;
    &&& p.x - d <= x <= p.x + d
    &&& p.y - d <= y <= p.y + d
}

/// The blast check sets off exactly the armed bombs that some player other than the one
/// who dropped them stands near, within the bomb's blast distance across and down,
/// whatever the players' numbers. Such a bomb leaves the field, the check reports it, and
/// an explosion starts at it with the bomb's distance and no turn elapsed; any other armed
/// bomb stays where it lies.
pub proof fn lemma_detonate_sets_off_near(
    v: GameView,
    w: GameView,
    res: bool,
    x: int,
    y: int,
    d: i32,
    id: usize,
)
    requires
        v.inv(),
        detonated(v, w, res),
        v.in_grid(x, y),
        v.cell(x, y) == FieldState::Bom(BomCat::Ready((d, id))),
    ensures
        (exists|i: int| 0 <= i < v.player_num && i != id && #[trigger] near(v, i, x, y, d as int))
            ==> {
            &&& w.cell(x, y) is Empty
            &&& res
            &&& exists|k: int|
                0 <= k < w.explosions.len() && #[trigger] w.explosions[k] == (
                Coord { x: x as i32, y: y as i32 },
                d,
                0i32,
            )
        },
        !(exists|i: int| 0 <= i < v.player_num && i != id && #[trigger] near(v, i, x, y, d as int))
            ==> w.cell(x, y) == v.cell(x, y),
{
    assert(bom_dist_ok(d));
    if exists|i: int| 0 <= i < v.player_num && i != id && #[trigger] near(v, i, x, y, d as int) {
        let i = choose|i: int| 0 <= i < v.player_num && i != id && #[trigger] near(v, i, x, y, d as int);
        assert(sets_off(v, i, x, y));
        assert(set_off(v, x, y));
        let e = w.explosions.skip(v.explosions.len() as int);
        let j = choose|j: int| 0 <= j < e.len() && (#[trigger] e[j]).0 == Coord { x: x as i32, y: y as i32 };
        assert(w.explosions[v.explosions.len() + j] == e[j]);
        assert(e[j].0.x == x && e[j].0.y == y);
        assert(w.explosions[v.explosions.len() + j] == (Coord { x: x as i32, y: y as i32 }, d, 0i32));
    } else {
        if set_off(v, x, y) {
            let i = choose|i: int| 0 <= i < v.player_num && #[trigger] sets_off(v, i, x, y);
            assert(near(v, i, x, y, d as int));
        }
    }
}

/// Whether `q` lies in the square of radius `t` around `c`.
pub open spec fn in_square(q: Coord, c: Coord, t: int) -> bool {
    &&& c.x - t <= q.x <= c.x + t
    &&& c.y - t <= q.y <= c.y + t
}

/// The cells a column of a blast reaches: those of the column on the field, in its rows.
proof fn lemma_blast_col_has(c: Coord, t: int, size: int, dx: int, m: int, q: Coord)
    requires
        0 <= size <= FIELD_SIDE_LIMIT,
    ensures
        blast_col(c, t, size, dx, m).contains(q) <==> (0 <= q.x < size && 0 <= q.y < size && q.x
            == c.x + dx && c.y - t <= q.y < c.y - t + m),
    decreases m,
{
    if m > 0 {
        lemma_blast_col_has(c, t, size, dx, m - 1, q);
        let x = c.x + dx;
        let y = c.y - t + m - 1;
        let tail = if 0 <= x < size && 0 <= y < size {
            seq![Coord { x: x as i32, y: y as i32 }]
        } else {
            Seq::empty()
        };
        assert(blast_col(c, t, size, dx, m) == blast_col(c, t, size, dx, m - 1) + tail);
        vstd::seq_lib::lemma_seq_concat_contains_all_elements(blast_col(c, t, size, dx, m - 1), tail, q);
        if 0 <= x < size && 0 <= y < size {
            assert(tail.contains(q) <==> tail[0] == q);
        } else {
            assert(!tail.contains(q));
        }
    }
}

/// The cells the first `n` columns of a blast reach: those of its square on the field, in
/// those columns.
proof fn lemma_blast_cols_has(c: Coord, t: int, size: int, n: int, q: Coord)
    requires
        0 <= size <= FIELD_SIDE_LIMIT,
        0 <= t,
    ensures
        blast_cols(c, t, size, n).contains(q) <==> (0 <= q.x < size && 0 <= q.y < size && c.x - t
            <= q.x < c.x - t + n && c.y - t <= q.y <= c.y + t),
    decreases n,
{
    if n > 0 {
        lemma_blast_cols_has(c, t, size, n - 1, q);
        lemma_blast_col_has(c, t, size, -t + n - 1, 2 * t + 1, q);
        vstd::seq_lib::lemma_seq_concat_contains_all_elements(
            blast_cols(c, t, size, n - 1),
            blast_col(c, t, size, -t + n - 1, 2 * t + 1),
            q,
        );
    }
}

/// The cells a turn of the explosions `es` reaches: those of the field in the square of
/// some explosion, of radius its turn.
proof fn lemma_burn_seq_has(es: Seq<(Coord, i32, i32)>, size: int, q: Coord)
    requires
        0 <= size <= FIELD_SIDE_LIMIT,
        forall|k: int| 0 <= k < es.len() ==> (#[trigger] es[k]).2 >= 0,
    ensures
        burn_seq(es, size).contains(q) <==> (0 <= q.x < size && 0 <= q.y < size && exists|j: int|
            0 <= j < es.len() && #[trigger] in_square(q, es[j].0, es[j].2 as int)),
    decreases es.len(),
{
    if es.len() > 0 {
        let e = es.last();
        let rest = es.drop_last();
        assert forall|k: int| 0 <= k < rest.len() implies (#[trigger] rest[k]).2 >= 0 by {
            assert(rest[k] == es[k]);
        }
        lemma_burn_seq_has(rest, size, q);
        assert(es[es.len() - 1] == e);
        assert(burn_seq(es, size) == burn_seq(rest, size) + blast_cols(e.0, e.2 as int, size, 2 * e.2 + 1));
        assert(e.2 >= 0);
        lemma_blast_cols_has(e.0, e.2 as int, size, 2 * e.2 + 1, q);
        assert(blast_cols(e.0, e.2 as int, size, 2 * e.2 + 1).contains(q) <==> (0 <= q.x < size && 0 <= q.y < size && in_square(q, e.0, e.2 as int)));
        vstd::seq_lib::lemma_seq_concat_contains_all_elements(
            burn_seq(rest, size),
            blast_cols(e.0, e.2 as int, size, 2 * e.2 + 1),
            q,
        );
        if exists|j: int| 0 <= j < es.len() && #[trigger] in_square(q, es[j].0, es[j].2 as int) {
            let j = choose|j: int| 0 <= j < es.len() && #[trigger] in_square(q, es[j].0, es[j].2 as int);
            if j < rest.len() {
                assert(rest[j] == es[j]);
            }
        }
        if exists|j: int| 0 <= j < rest.len() && #[trigger] in_square(q, rest[j].0, rest[j].2 as int) {
            let j = choose|j: int| 0 <= j < rest.len() && #[trigger] in_square(q, rest[j].0, rest[j].2 as int);
            assert(rest[j] == es[j]);
        }
    }
}

/// The explosions that go on: each one short of its distance, one turn older, and no other.
proof fn lemma_next_explosions_has(es: Seq<(Coord, i32, i32)>, f: (Coord, i32, i32))
    requires
        forall|k: int| 0 <= k < es.len() ==> (#[trigger] es[k]).2 <= es[k].1,
    ensures
        next_explosions(es).contains(f) <==> exists|j: int|
            0 <= j < es.len() && (#[trigger] es[j]).2 < es[j].1 && f == (es[j].0, es[j].1, (es[j].2
                + 1) as i32),
    decreases es.len(),
{
    if es.len() > 0 {
        let e = es.last();
        let rest = es.drop_last();
        assert forall|k: int| 0 <= k < rest.len() implies (#[trigger] rest[k]).2 <= rest[k].1 by {
            assert(rest[k] == es[k]);
        }
        lemma_next_explosions_has(rest, f);
        let tail = if e.1 > e.2 {
            seq![(e.0, e.1, (e.2 + 1) as i32)]
        } else {
            Seq::empty()
        };
        assert(next_explosions(es) == next_explosions(rest) + tail);
        vstd::seq_lib::lemma_seq_concat_contains_all_elements(next_explosions(rest), tail, f);
        if e.1 > e.2 {
            assert(tail.contains(f) <==> tail[0] == f);
        } else {
            assert(!tail.contains(f));
        }
        assert(es[es.len() - 1] == e);
        if exists|j: int|
            0 <= j < es.len() && (#[trigger] es[j]).2 < es[j].1 && f == (es[j].0, es[j].1, (es[j].2
                + 1) as i32) {
            let j = choose|j: int|
                0 <= j < es.len() && (#[trigger] es[j]).2 < es[j].1 && f == (es[j].0, es[j].1, (
                es[j].2 + 1) as i32);
            if j < rest.len() {
                assert(rest[j] == es[j]);
            }
        }
        if exists|j: int|
            0 <= j < rest.len() && (#[trigger] rest[j]).2 < rest[j].1 && f == (rest[j].0, rest[j].1, (
            rest[j].2 + 1) as i32) {
            let j = choose|j: int|
                0 <= j < rest.len() && (#[trigger] rest[j]).2 < rest[j].1 && f == (rest[j].0, rest[j].1,
                (rest[j].2 + 1) as i32);
            assert(rest[j] == es[j]);
        }
    }
}

/// A turn of the explosions reaches exactly the cells of the field that lie in the square
/// around the centre of some explosion under way, of radius its turn; every player standing
/// in such a square dies and no other player does; and the explosions that go on are exactly
/// those short of their distance, each one turn older, with its centre and distance.
pub proof fn lemma_spread_reaches_squares(v: GameView, w: GameView, r: BlastStep)
    requires
        v.inv(),
        spread(v, w, r),
    ensures
        forall|q: Coord|
            #[trigger] r.burned@.contains(q) <==> (v.in_grid(q.x as int, q.y as int) && exists|j: int|
                0 <= j < v.explosions.len() && #[trigger] in_square(
                    q,
                    v.explosions[j].0,
                    v.explosions[j].2 as int,
                )),
        forall|i: int|
            0 <= i < v.player_num ==> (#[trigger] w.players[i]).is_alive == (v.players[i].is_alive
                && !exists|j: int|
                0 <= j < v.explosions.len() && #[trigger] in_square(
                    v.players[i].cd,
                    v.explosions[j].0,
                    v.explosions[j].2 as int,
                )),
        forall|f: (Coord, i32, i32)|
            #[trigger] w.explosions.contains(f) <==> exists|j: int|
                0 <= j < v.explosions.len() && (#[trigger] v.explosions[j]).2 < v.explosions[j].1
                    && f == (v.explosions[j].0, v.explosions[j].1, (v.explosions[j].2 + 1) as i32),
{
    let es = v.explosions;
    assert forall|k: int| 0 <= k < es.len() implies (#[trigger] es[k]).2 >= 0 && es[k].2 <= es[k].1 by {
        assert(explosion_ok(es[k], v.size));
    }
    assert forall|q: Coord| #[trigger] r.burned@.contains(q) <==> (v.in_grid(q.x as int, q.y as int)
        && exists|j: int|
        0 <= j < es.len() && #[trigger] in_square(q, es[j].0, es[j].2 as int)) by {
        if es.len() > 0 {
            lemma_burn_seq_has(es, v.size as int, q);
        }
    }
    assert forall|i: int| 0 <= i < v.player_num implies (#[trigger] w.players[i]).is_alive == (
    v.players[i].is_alive && !exists|j: int|
        0 <= j < es.len() && #[trigger] in_square(v.players[i].cd, es[j].0, es[j].2 as int)) by {
        let q = v.players[i].cd;
        assert(v.in_grid(q.x as int, q.y as int));
        assert(r.burned@.contains(q) <==> (v.in_grid(q.x as int, q.y as int) && exists|j: int|
            0 <= j < es.len() && #[trigger] in_square(q, es[j].0, es[j].2 as int)));
    }
    assert forall|f: (Coord, i32, i32)| #[trigger] w.explosions.contains(f) <==> exists|j: int|
        0 <= j < es.len() && (#[trigger] es[j]).2 < es[j].1 && f == (es[j].0, es[j].1, (es[j].2
            + 1) as i32) by {
        if es.len() > 0 {
            lemma_next_explosions_has(es, f);
        }
    }
}

/// `v` with an oil well holding `g` put on column `x`, row `y`.
pub open spec fn with_well(v: GameView, x: int, y: int, g: i32) -> GameView {
    GameView {
        oils: v.oils.insert(key(x, y), g),
        cells: with_cell(v, x, y, FieldState::Oil(g)),
        ..v
    }
}

/// Stocking wells that has got partway from `a` to `b` can always be completed, keeping the
/// wells already put.
proof fn lemma_oil_refill_completes(a: GameView, b: GameView)
    requires
        a.inv(),
        b.inv(),
        oil_refill_progress(a, b),
    ensures
        exists|c: GameView|
            #![trigger oil_refilled(a, c)]
            oil_refilled(a, c) && c.inv() && forall|x: int, y: int|
                a.in_grid(x, y) && #[trigger] b.cell(x, y) is Oil ==> c.cell(x, y) == b.cell(x, y),
    decreases b.oil_num - b.oils.len(),
{
    if b.oils.len() >= b.oil_num {
        assert(oil_refilled(a, b));
    } else {
        lemma_room_left(b);
        let (x, y) = choose|x: int, y: int| b.in_grid(x, y) && #[trigger] b.cell(x, y) is Empty;
        let w = with_well(b, x, y, MIN_OIL);
        lemma_put_cell(b, w, x, y, FieldState::Oil(MIN_OIL));
        assert(w.counts_ok());
        assert(w.inv());
        assert(oil_refill_progress(a, w));
        lemma_oil_refill_completes(a, w);
        let c = choose|c: GameView|
            #![trigger oil_refilled(a, c)]
            oil_refilled(a, c) && c.inv() && forall|x: int, y: int|
                a.in_grid(x, y) && #[trigger] w.cell(x, y) is Oil ==> c.cell(x, y) == w.cell(x, y);
        assert forall|xx: int, yy: int|
            a.in_grid(xx, yy) && #[trigger] b.cell(xx, yy) is Oil implies c.cell(xx, yy) == b.cell(xx, yy) by {
            assert(w.cell(xx, yy) == b.cell(xx, yy));
        }
        assert(oil_refilled(a, c));
    }
}

/// Any empty cell can receive a well of any amount wells are made with: while wells are
/// missing, stocking them may put the well on that cell, so no cell is kept out of the draw.
pub proof fn lemma_any_empty_cell_can_get_a_well(a: GameView, x: int, y: int, g: i32)
    requires
        a.inv(),
        a.in_grid(x, y),
        a.cell(x, y) is Empty,
        a.oils.len() < a.oil_num,
        oil_ok(g),
    ensures
        exists|b: GameView|
            #![trigger oil_refilled(a, b)]
            oil_refilled(a, b) && b.inv() && b.cell(x, y) == FieldState::Oil(g),
{
    let w = with_well(a, x, y, g);
    lemma_put_cell(a, w, x, y, FieldState::Oil(g));
    assert(w.counts_ok());
    assert(w.inv());
    assert(oil_refill_progress(a, w));
    lemma_oil_refill_completes(a, w);
    let b = choose|c: GameView|
        #![trigger oil_refilled(a, c)]
        oil_refilled(a, c) && c.inv() && forall|xx: int, yy: int|
            a.in_grid(xx, yy) && #[trigger] w.cell(xx, yy) is Oil ==> c.cell(xx, yy) == w.cell(xx, yy);
    assert(w.cell(x, y) is Oil);
    assert(b.cell(x, y) == FieldState::Oil(g));
}

/// `v` with a safe bomb of blast distance `d` put on column `x`, row `y`.
pub open spec fn with_bomb(v: GameView, x: int, y: int, d: i32) -> GameView {
    GameView {
        boms: v.boms.insert(key(x, y), BomCat::Safe(d)),
        cells: with_cell(v, x, y, FieldState::Bom(BomCat::Safe(d))),
        ..v
    }
}

/// Stocking bombs that has got partway from `a` to `b` can always be completed, keeping the
/// bombs already put.
proof fn lemma_bom_refill_completes(a: GameView, b: GameView)
    requires
        a.inv(),
        b.inv(),
        bom_refill_progress(a, b),
    ensures
        exists|c: GameView|
            #![trigger bom_refilled(a, c)]
            bom_refilled(a, c) && c.inv() && forall|x: int, y: int|
                a.in_grid(x, y) && #[trigger] b.cell(x, y) is Bom ==> c.cell(x, y) == b.cell(x, y),
    decreases b.bom_num - b.boms.len(),
{
    if b.boms.len() + b.player_bom >= b.bom_num {
        assert(bom_refilled(a, b));
    } else {
        lemma_room_left(b);
        let (x, y) = choose|x: int, y: int| b.in_grid(x, y) && #[trigger] b.cell(x, y) is Empty;
        let w = with_bomb(b, x, y, MIN_BOM);
        lemma_put_cell(b, w, x, y, FieldState::Bom(BomCat::Safe(MIN_BOM)));
        assert(w.counts_ok());
        assert(w.inv());
        assert(bom_refill_progress(a, w));
        lemma_bom_refill_completes(a, w);
        let c = choose|c: GameView|
            #![trigger bom_refilled(a, c)]
            bom_refilled(a, c) && c.inv() && forall|x: int, y: int|
                a.in_grid(x, y) && #[trigger] w.cell(x, y) is Bom ==> c.cell(x, y) == w.cell(x, y);
        assert forall|xx: int, yy: int|
            a.in_grid(xx, yy) && #[trigger] b.cell(xx, yy) is Bom implies c.cell(xx, yy) == b.cell(xx, yy) by {
            assert(w.cell(xx, yy) == b.cell(xx, yy));
        }
        assert(bom_refilled(a, c));
    }
}

/// Any empty cell can receive a safe bomb of any distance bombs are made with: while bombs
/// are missing, stocking them may put the bomb on that cell, so no cell is kept out of the draw.
pub proof fn lemma_any_empty_cell_can_get_a_bomb(a: GameView, x: int, y: int, d: i32)
    requires
        a.inv(),
        a.in_grid(x, y),
        a.cell(x, y) is Empty,
        a.boms.len() + a.player_bom < a.bom_num,
        bom_dist_ok(d),
    ensures
        exists|b: GameView|
            #![trigger bom_refilled(a, b)]
            bom_refilled(a, b) && b.inv() && b.cell(x, y) == FieldState::Bom(BomCat::Safe(d)),
{
    let w = with_bomb(a, x, y, d);
    lemma_put_cell(a, w, x, y, FieldState::Bom(BomCat::Safe(d)));
    assert(w.counts_ok());
    assert(w.inv());
    assert(bom_refill_progress(a, w));
    lemma_bom_refill_completes(a, w);
    let b = choose|c: GameView|
        #![trigger bom_refilled(a, c)]
        bom_refilled(a, c) && c.inv() && forall|xx: int, yy: int|
            a.in_grid(xx, yy) && #[trigger] w.cell(xx, yy) is Bom ==> c.cell(xx, yy) == w.cell(xx, yy);
    assert(w.cell(x, y) is Bom);
    assert(b.cell(x, y) == FieldState::Bom(BomCat::Safe(d)));
}

/// A move of number `id` takes a player one cell up (0), left (1), right (2) or down (3),
/// and is refused, changing nothing, when that cell is off the field; any other number keeps
/// the player where it stands, changing nothing. A player stepping onto an oil well gains
/// its oil, and the well goes; otherwise the field stays as it was. No other player is touched, and no bomb.
/// (The oil gained must fit in the player's `i32` tank, as `act` requires.)
pub proof fn lemma_move_steps(v: GameView, pid: int, id: usize)
    requires
        v.inv(),
        0 <= pid < v.player_num,
        act_fits(v, pid, Action::Move(id)),
    ensures
        ({
            let p = v.players[pid];
            let tx: int = if id == 1 {
                p.cd.x - 1
            } else if id == 2 {
                p.cd.x + 1
            } else {
                p.cd.x as int
            };
            let ty: int = if id == 0 {
                p.cd.y - 1
            } else if id == 3 {
                p.cd.y + 1
            } else {
                p.cd.y as int
            };
            let (w, ok) = act_spec(v, pid, Action::Move(id));
            &&& ok == v.in_grid(tx, ty)
            &&& !ok ==> w == v
            &&& ok ==> {
                &&& w.players[pid].cd.x == tx
                &&& w.players[pid].cd.y == ty
                &&& w.players[pid].bom == p.bom
                &&& w.players[pid].is_alive == p.is_alive
                &&& w.players.len() == v.players.len()
                &&& forall|j: int| 0 <= j < v.player_num && j != pid ==> #[trigger] w.players[j] == v.players[j]
                &&& w.boms == v.boms
                &&& w.player_bom == v.player_bom
                &&& w.explosions == v.explosions
                &&& (id < 4 ==> (v.cell(tx, ty) matches FieldState::Oil(g) ==> {
                    &&& w.players[pid].galon == p.galon + g
                    &&& w.cell(tx, ty) is Empty
                    &&& !w.oils.contains_key(key(tx, ty))
                }))
                &&& (id >= 4 || !(v.cell(tx, ty) is Oil) ==> {
                    &&& w.players[pid].galon == p.galon
                    &&& w.cells == v.cells
                    &&& w.oils == v.oils
                })
            }
        }),
{
    let p = v.players[pid];
    assert(v.in_grid(p.cd.x as int, p.cd.y as int));
    if id < 4 {
        let nxt = move_target(p, id as int);
        let tx: int = if id == 1 {
            p.cd.x - 1
        } else if id == 2 {
            p.cd.x + 1
        } else {
            p.cd.x as int
        };
        let ty: int = if id == 0 {
            p.cd.y - 1
        } else if id == 3 {
            p.cd.y + 1
        } else {
            p.cd.y as int
        };
        assert(nxt.x == tx && nxt.y == ty);
        if v.in_grid(tx, ty) {
            assert(cell_ok(v.cell(tx, ty), v.player_num));
            if let FieldState::Oil(g) = v.cell(tx, ty) {
                assert(p.galon + g <= i32::MAX);
                assert(act_spec(v, pid, Action::Move(id)).0.players[pid].galon == p.galon + g);
            }
        }
    }
}

/// Dropping a bomb is accepted exactly when the player carries one and stands on an empty
/// cell; the cell then holds the bomb armed by that player with the carried distance, the
/// player carries nothing, and one bomb fewer is counted as picked up. A refused drop
/// changes nothing.
pub proof fn lemma_drop_arms_the_carried_bomb(v: GameView, pid: int)
    requires
        v.inv(),
        0 <= pid < v.player_num,
    ensures
        ({
            let p = v.players[pid];
            let (x, y) = (p.cd.x as int, p.cd.y as int);
            let (w, ok) = act_spec(v, pid, Action::DropBom);
            &&& ok == (v.cell(x, y) is Empty && p.bom is Some)
            &&& !ok ==> w == v
            &&& ok ==> {
                &&& w.cell(x, y) == FieldState::Bom(BomCat::Ready((p.bom->0, pid as usize)))
                &&& w.boms.contains_key(key(x, y))
                &&& w.boms[key(x, y)] == BomCat::Ready((p.bom->0, pid as usize))
                &&& w.players[pid].bom is None
                &&& w.players[pid].cd == p.cd
                &&& w.player_bom + 1 == v.player_bom
            }
        }),
{
    let p = v.players[pid];
    lemma_holders_update(v.players, pid, Player { bom: None, ..p });
}

/// Collecting oil empties each well some player stands on into the tank of the
/// lowest-numbered player standing there and into no other tank; a well no player stands on
/// stays. Players do not move, and nothing on the field but those wells changes.
pub proof fn lemma_collect_first_player_takes_the_well(a: GameView, b: GameView, i: int, x: int, y: int)
    requires
        a.inv(),
        collect_fits(a),
        collected(a, b),
        0 <= i < a.player_num,
        a.in_grid(x, y),
    ensures
        ({
            let p = a.players[i];
            let first = forall|j: int| 0 <= j < i ==> (#[trigger] a.players[j]).cd != p.cd;
            &&& b.players[i].cd == p.cd
            &&& b.players[i].bom == p.bom
            &&& b.players[i].is_alive == p.is_alive
            &&& (a.cell(p.cd.x as int, p.cd.y as int) matches FieldState::Oil(g) ==> (first
                ==> b.players[i].galon == p.galon + g))
            &&& (!(a.cell(p.cd.x as int, p.cd.y as int) is Oil) || !first) ==> b.players[i].galon
                == p.galon
        }),
        (exists|j: int|
            0 <= j < a.player_num && (#[trigger] a.players[j]).cd == Coord { x: x as i32, y: y as i32 })
            ==> (a.cell(x, y) is Oil ==> b.cell(x, y) is Empty),
        !(exists|j: int|
            0 <= j < a.player_num && (#[trigger] a.players[j]).cd == Coord { x: x as i32, y: y as i32 })
            ==> b.cell(x, y) == a.cell(x, y),
        !(a.cell(x, y) is Oil) ==> b.cell(x, y) == a.cell(x, y),
{
    let p = a.players[i];
    assert(b.players[i] == (Player {
        galon: if picks(a, i) {
            (p.galon + oil_in(a.cell(p.cd.x as int, p.cd.y as int))) as i32
        } else {
            p.galon
        },
        ..p
    }));
    assert(b.cell(x, y) == (if a.cell(x, y) is Oil && occupied(a, x, y) {
        FieldState::Empty
    } else {
        a.cell(x, y)
    }));
}

} // verus!
