//! Rules engine for the disc-flipping board game: players, positions,
//! the board grid, the directional flipping scan, and the game state
//! machine (place, skip, misplay, terminal detection, winner).

use vstd::prelude::*;
use vstd::arithmetic::div_mod::lemma_fundamental_div_mod_converse;
use vstd::pervasive::VecAdditionalExecFns;

verus! {

/// One of the two seats in a game.
#[derive(Debug, Copy, Clone, PartialEq, Eq, Structural)]
pub enum Player {
    White,
    Black,
}

impl Player {
    /// The opposing seat.
    pub open spec fn spec_flip(&self) -> Player {
        match self {
            Player::White => Player::Black,
            Player::Black => Player::White,
        }
    }

    /// Single-byte wire code of the seat.
    pub open spec fn spec_serialize(&self) -> u8 {
        match self {
            Player::White => 1,
            Player::Black => 2,
        }
    }

    #[verifier::when_used_as_spec(spec_flip)]
    pub fn flip(&self) -> (r: Player)
        ensures
            r == self.spec_flip(),
    {
        match *self {
            Player::White => Player::Black,
            Player::Black => Player::White,
        }
    }

    #[verifier::when_used_as_spec(spec_serialize)]
    pub fn serialize(&self) -> (r: u8)
        ensures
            r == self.spec_serialize(),
    {
        match *self {
            Player::White => 1,
            Player::Black => 2,
        }
    }
}

/// A cell coordinate: column (`.0`) and row (`.1`), bound to a board
/// edge length `n` by the requirement `.0 < n && .1 < n`.
#[derive(Debug, Copy, Clone, PartialEq, Eq, Structural)]
pub struct Pos(pub usize, pub usize);

/// A board edge length the game accepts: even, at least 2, and small
/// enough that every cell offset `x + y*n` fits in one byte.
pub open spec fn valid_edge(n: int) -> bool {
    n % 2 == 0 && 2 <= n <= 16
}

impl Pos {
    /// The single-byte wire offset of this position on an `n`-edged board.
    pub open spec fn spec_to_offset(&self, n: int) -> int {
        self.0 + self.1 * n
    }

    /// The position a wire offset denotes on an `n`-edged board.
    pub open spec fn spec_from_offset(off: int, n: int) -> Pos {
        Pos((off % n) as usize, (off / n) as usize)
    }

    pub fn to_offset(&self, board_size: usize) -> (r: u8)
        requires
            valid_edge(board_size as int),
            self.0 < board_size,
            self.1 < board_size,
        ensures
            r as int == self.spec_to_offset(board_size as int),
            r < board_size * board_size,
    {
        proof {
            lemma_offset_bound(self.0 as int, self.1 as int, board_size as int);
            lemma_edge_sq(board_size as int);
        }
        #[verifier::truncate]
        ((self.0 + self.1 * board_size) as u8)
    }

    pub fn from_offset(offset: u8, board_size: usize) -> (r: Pos)
        requires
            board_size > 0,
        ensures
            r == Pos::spec_from_offset(offset as int, board_size as int),
    {
        Pos(offset as usize % board_size, offset as usize / board_size)
    }
}

/// A valid board never has more cells than a byte offset can address.
pub proof fn lemma_edge_sq(n: int) by (nonlinear_arith)
    requires
        0 <= n <= 16,
    ensures
        n * n <= 256,
{
}

/// On an `n`-edged board with `x < n`, `y < n`, the offset `x + y*n`
/// lies below `n*n`.
pub proof fn lemma_offset_bound(x: int, y: int, n: int) by (nonlinear_arith)
    requires
        0 < n,
        0 <= x < n,
        0 <= y < n,
    ensures
        0 <= x + y * n < n * n,
{
}

/// Decoding the wire offset of a valid position recovers the position:
/// the byte offset is a lossless encoding while both coordinates lie on
/// the board.
pub proof fn lemma_offset_round_trip(p: Pos, n: usize)
    requires
        valid_edge(n as int),
        p.0 < n,
        p.1 < n,
    ensures
        p.spec_to_offset(n as int) < 256,
        Pos::spec_from_offset(p.spec_to_offset(n as int), n as int) == p,
{
    lemma_offset_bound(p.0 as int, p.1 as int, n as int);
    lemma_edge_sq(n as int);
    lemma_fundamental_div_mod_converse(
        p.0 + p.1 * (n as int),
        n as int,
        p.1 as int,
        p.0 as int,
    );
}

/// One of the four axis directions of the flipping scan.
#[derive(Debug, Copy, Clone, PartialEq, Eq, Structural)]
pub enum Dir {
    Up,
    Down,
    Left,
    Right,
}

impl Dir {
    /// Column step of the direction.
    pub open spec fn dx(&self) -> int {
        match self {
            Dir::Up => 0,
            Dir::Down => 0,
            Dir::Left => -1,
            Dir::Right => 1,
        }
    }

    /// Row step of the direction.
    pub open spec fn dy(&self) -> int {
        match self {
            Dir::Up => -1,
            Dir::Down => 1,
            Dir::Left => 0,
            Dir::Right => 0,
        }
    }
}

/// A step is one of the four unit axis directions.
pub open spec fn unit_dir(dx: int, dy: int) -> bool {
    ||| (dx == 0 && dy == -1)
    ||| (dx == 0 && dy == 1)
    ||| (dx == -1 && dy == 0)
    ||| (dx == 1 && dy == 0)
}

/// How many cells `Some(p)` holds in a row of board cells.
pub open spec fn count_matching(s: Seq<Option<Player>>, p: Player) -> nat
    decreases s.len(),
{
    if s.len() == 0 {
        0
    } else {
        count_matching(s.drop_last(), p) + (if s.last() == Some(p) {
            1nat
        } else {
            0nat
        })
    }
}

pub proof fn lemma_count_le(s: Seq<Option<Player>>, p: Player)
    ensures
        count_matching(s, p) <= s.len(),
    decreases s.len(),
{
    if s.len() > 0 {
        lemma_count_le(s.drop_last(), p);
    }
}

pub proof fn lemma_count_update(s: Seq<Option<Player>>, i: int, v: Option<Player>, p: Player)
    requires
        0 <= i < s.len(),
    ensures
        count_matching(s.update(i, v), p) == count_matching(s, p) - (if s[i] == Some(p) {
            1int
        } else {
            0int
        }) + (if v == Some(p) {
            1int
        } else {
            0int
        }),
    decreases s.len(),
{
    let su = s.update(i, v);
    if i == s.len() - 1 {
        assert(su.drop_last() =~= s.drop_last());
    } else {
        assert(su.drop_last() =~= s.drop_last().update(i, v));
        lemma_count_update(s.drop_last(), i, v, p);
    }
}

pub proof fn lemma_count_take_step(s: Seq<Option<Player>>, i: int, p: Player)
    requires
        0 <= i < s.len(),
    ensures
        count_matching(s.take(i + 1), p) == count_matching(s.take(i), p) + (if s[i] == Some(p) {
            1int
        } else {
            0int
        }),
{
    assert(s.take(i + 1).drop_last() =~= s.take(i));
}

/// Cell offsets are a lossless pairing of on-board coordinates.
pub proof fn lemma_idx_inj(n: int, x1: int, y1: int, x2: int, y2: int)
    requires
        0 < n,
        0 <= x1 < n,
        0 <= y1 < n,
        0 <= x2 < n,
        0 <= y2 < n,
        x1 * n + y1 == x2 * n + y2,
    ensures
        x1 == x2 && y1 == y2,
{
    lemma_fundamental_div_mod_converse(x1 * n + y1, n, x1, y1);
    lemma_fundamental_div_mod_converse(x2 * n + y2, n, x2, y2);
}

/// Why a game could not be created.
#[derive(Debug, Copy, Clone, PartialEq, Eq, Structural)]
pub enum GameError {
    /// The requested board edge length is not usable: odd, zero, or too
    /// large for single-byte cell offsets.
    InvalidConfiguration,
}

/// One game of the disc-flipping board game: an `n` by `n` grid of
/// optional discs, the seat to move, the ordered log of placed moves
/// (as wire offsets), and a flag recording a protocol violation.
pub struct Game {
    n: usize,
    board: Vec<Option<Player>>,
    turn: Player,
    moves: Vec<u8>,
    misplay: Option<Player>,
}

impl Game {
    /// The board edge length.
    pub closed spec fn edge(&self) -> int {
        self.n as int
    }

    /// The disc (if any) on the cell in column `x`, row `y`.
    pub closed spec fn cell(&self, x: int, y: int) -> Option<Player> {
        self.board@[x * self.n + y]
    }

    /// The seat whose turn it is to move.
    pub closed spec fn whose_turn(&self) -> Player {
        self.turn
    }

    /// The log of placed moves, each as its single-byte wire offset.
    pub closed spec fn move_log(&self) -> Seq<u8> {
        self.moves@
    }

    /// The seat that committed a protocol violation, if any.
    pub closed spec fn misplay_loser(&self) -> Option<Player> {
        self.misplay
    }

    /// How many discs of seat `p` stand on the board.
    pub closed spec fn disc_count(&self, p: Player) -> nat {
        count_matching(self.board@, p)
    }

    /// The backing grid holds exactly one cell per board position.
    pub closed spec fn grid_ok(&self) -> bool {
        self.board@.len() == self.n * self.n
    }

    /// Structural well-formedness: a valid edge length and a full grid.
    pub open spec fn wf(&self) -> bool {
        valid_edge(self.edge()) && self.grid_ok()
    }

    /// Whether column `x`, row `y` lies on the board.
    pub open spec fn in_bounds(&self, x: int, y: int) -> bool {
        0 <= x < self.edge() && 0 <= y < self.edge()
    }

    /// How many cells hold a disc of either seat.
    pub open spec fn occupied_count(&self) -> nat {
        self.disc_count(Player::White) + self.disc_count(Player::Black)
    }

    /// The scan order of a position: positions are visited column by
    /// column, row within column.
    pub open spec fn scan_index(&self, p: Pos) -> int {
        p.0 * self.edge() + p.1
    }

    /// The disc the fixed initial pattern puts on column `x`, row `y` of
    /// an `n`-edged board: the four central cells alternate, all other
    /// cells start empty.
    pub open spec fn initial_cell(n: int, x: int, y: int) -> Option<Player> {
        let h = n / 2;
        if (x == h - 1 && y == h - 1) || (x == h && y == h) {
            Some(Player::White)
        } else if (x == h && y == h - 1) || (x == h - 1 && y == h) {
            Some(Player::Black)
        } else {
            None
        }
    }

    /// A disc count never exceeds the number of cells.
    pub proof fn lemma_occupied_le(&self)
        requires
            self.wf(),
        ensures
            self.occupied_count() <= self.edge() * self.edge(),
    {
        lemma_count_two_players_le(self.board@);
    }

    /// Creates a fresh game on an `n` by `n` board with the four central
    /// cells pre-populated in the fixed alternating pattern and the
    /// second (dark) seat to move; rejected if and only if `n` is not a
    /// valid edge length.
    pub fn new(n: usize) -> (r: Result<Game, GameError>)
        ensures
            match r {
                Ok(g) => {
                    &&& valid_edge(n as int)
                    &&& g.wf()
                    &&& g.edge() == n
                    &&& g.whose_turn() == Player::Black
                    &&& g.move_log() =~= Seq::<u8>::empty()
                    &&& g.misplay_loser() is None
                    &&& forall|x: int, y: int|
                        g.in_bounds(x, y) ==> g.cell(x, y) == Game::initial_cell(n as int, x, y)
                    &&& g.occupied_count() == 4
                },
                Err(e) => !valid_edge(n as int) && e == GameError::InvalidConfiguration,
            },
    {
        if n % 2 != 0 || n < 2 || n > 16 {
            return Err(GameError::InvalidConfiguration);
        }
        proof {
            lemma_edge_sq(n as int);
        }
        let mut board: Vec<Option<Player>> = Vec::new();
        let size = n * n;
        let mut i: usize = 0;
        while i < size
            invariant
                board@.len() == i,
                i <= size,
                forall|j: int| 0 <= j < i ==> board@[j] is None,
            decreases size - i,
        {
            board.push(None);
            i += 1;
        }
        let h = n / 2;
        let mut g = Game { n, board, turn: Player::Black, moves: Vec::new(), misplay: None };
        proof {
            lemma_count_none(g.board@, Player::White);
            lemma_count_none(g.board@, Player::Black);
        }
        let ghost s0 = g.board@;
        g.set(Pos(h - 1, h - 1), Player::White);
        let ghost s1 = g.board@;
        g.set(Pos(h, h - 1), Player::Black);
        let ghost s2 = g.board@;
        g.set(Pos(h - 1, h), Player::Black);
        let ghost s3 = g.board@;
        g.set(Pos(h, h), Player::White);
        proof {
            let ni = n as int;
            let hi = ni / 2;
            let i1 = (hi - 1) * ni + (hi - 1);
            let i2 = hi * ni + (hi - 1);
            let i3 = (hi - 1) * ni + hi;
            let i4 = hi * ni + hi;
            lemma_offset_bound(hi - 1, hi - 1, ni);
            lemma_offset_bound(hi - 1, hi, ni);
            lemma_offset_bound(hi, hi - 1, ni);
            lemma_offset_bound(hi, hi, ni);
            lemma_idx_inj_all(ni);
            lemma_count_update(s0, i1, Some(Player::White), Player::White);
            lemma_count_update(s0, i1, Some(Player::White), Player::Black);
            lemma_count_update(s1, i2, Some(Player::Black), Player::White);
            lemma_count_update(s1, i2, Some(Player::Black), Player::Black);
            lemma_count_update(s2, i3, Some(Player::Black), Player::White);
            lemma_count_update(s2, i3, Some(Player::Black), Player::Black);
            lemma_count_update(s3, i4, Some(Player::White), Player::White);
            lemma_count_update(s3, i4, Some(Player::White), Player::Black);
            assert forall|x: int, y: int| g.in_bounds(x, y) implies g.cell(x, y)
                == Game::initial_cell(ni, x, y) by {
                lemma_offset_bound(y, x, ni);
            }
        }
        Ok(g)
    }

    /// The seat to move.
    pub fn current_player(&self) -> (r: Player)
        ensures
            r == self.whose_turn(),
    {
        self.turn
    }

    /// The board edge length.
    pub fn size(&self) -> (r: usize)
        ensures
            r == self.edge(),
    {
        self.n
    }

    /// The log of placed moves as wire offsets.
    pub fn move_list(&self) -> (r: &Vec<u8>)
        ensures
            r@ == self.move_log(),
    {
        &self.moves
    }

    /// Whether this game ended through a protocol violation.
    pub fn is_misplay(&self) -> (r: bool)
        ensures
            r == (self.misplay_loser() is Some),
    {
        self.misplay.is_some()
    }

    /// Whether column `x`, row `y` lies on the board.
    fn is_space(&self, pos: Pos) -> (r: bool)
        ensures
            r == self.in_bounds(pos.0 as int, pos.1 as int),
    {
        pos.0 < self.n && pos.1 < self.n
    }

    /// The disc on a cell.
    fn space(&self, pos: Pos) -> (r: Option<Player>)
        requires
            self.wf(),
            self.in_bounds(pos.0 as int, pos.1 as int),
        ensures
            r == self.cell(pos.0 as int, pos.1 as int),
    {
        proof {
            lemma_offset_bound(pos.1 as int, pos.0 as int, self.n as int);
            lemma_edge_sq(self.n as int);
        }
        self.board[pos.0 * self.n + pos.1]
    }

    /// Places a disc of seat `player` on a cell, recording nothing else.
    fn set(&mut self, pos: Pos, player: Player)
        requires
            old(self).wf(),
            old(self).in_bounds(pos.0 as int, pos.1 as int),
        ensures
            final(self).wf(),
            final(self).n == old(self).n,
            final(self).turn == old(self).turn,
            final(self).moves@ == old(self).moves@,
            final(self).misplay == old(self).misplay,
            final(self).board@ == old(self).board@.update(
                (pos.0 as int) * (old(self).n as int) + (pos.1 as int),
                Some(player),
            ),
    {
        proof {
            lemma_offset_bound(pos.1 as int, pos.0 as int, self.n as int);
            lemma_edge_sq(self.n as int);
        }
        let idx = pos.0 * self.n + pos.1;
        self.board.set(idx, Some(player));
    }

    /// One byte per cell, row-major — each cell's byte sits at the
    /// cell's own wire offset `x + y·n`: `0` empty, `1` light, `2` dark.
    pub fn serialize(&self) -> (r: Vec<u8>)
        requires
            self.wf(),
        ensures
            r@.len() == self.edge() * self.edge(),
            forall|x: int, y: int|
                self.in_bounds(x, y) ==> r@[x + y * self.edge()] == cell_code(self.cell(x, y)),
    {
        proof {
            lemma_edge_sq(self.n as int);
        }
        let size = self.n * self.n;
        let mut r: Vec<u8> = Vec::new();
        let mut i: usize = 0;
        while i < size
            invariant
                self.wf(),
                size == self.n * self.n,
                r@.len() == i,
                i <= size,
                forall|j: int|
                    0 <= j < i ==> r@[j] == cell_code(
                        self.cell(j % (self.n as int), j / (self.n as int)),
                    ),
            decreases size - i,
        {
            let x = i % self.n;
            let y = i / self.n;
            proof {
                assert(y < self.n) by (nonlinear_arith)
                    requires
                        self.n > 0,
                        i < self.n * self.n,
                        y as int == i as int / (self.n as int),
                ;
                lemma_offset_bound(x as int, y as int, self.n as int);
            }
            let b = match self.space(Pos(x, y)) {
                None => 0u8,
                Some(Player::White) => 1u8,
                Some(Player::Black) => 2u8,
            };
            r.push(b);
            i += 1;
        }
        proof {
            assert forall|x: int, y: int| self.in_bounds(x, y) implies r@[x + y * self.edge()]
                == cell_code(self.cell(x, y)) by {
                lemma_offset_bound(x, y, self.n as int);
                lemma_fundamental_div_mod_converse(x + y * (self.n as int), self.n as int, y, x);
            }
        }
        r
    }
}

impl Game {
    /// Cells remaining between column `x`, row `y` and the board edge
    /// that the direction walks toward; the scan's termination measure.
    pub open spec fn dir_room(&self, x: int, y: int, dx: int, dy: int) -> int {
        if dx == 1 {
            self.edge() - x
        } else if dx == -1 {
            x + 1
        } else if dy == 1 {
            self.edge() - y
        } else {
            y + 1
        }
    }

    /// Length of the contiguous run of the opponent's discs starting one
    /// step from column `x`, row `y` in direction `(dx, dy)`.
    pub open spec fn run_len(&self, x: int, y: int, dx: int, dy: int, p: Player) -> nat
        decreases self.dir_room(x, y, dx, dy),
    {
        if !unit_dir(dx, dy) {
            0
        } else if self.in_bounds(x + dx, y + dy) && self.cell(x + dx, y + dy) == Some(
            p.spec_flip(),
        ) {
            1 + self.run_len(x + dx, y + dy, dx, dy, p)
        } else {
            0
        }
    }

    /// Whether the opponent run in direction `(dx, dy)` is non-empty and
    /// the cell just beyond it exists and holds the mover's disc.
    pub open spec fn dir_capped(&self, x: int, y: int, dx: int, dy: int, p: Player) -> bool {
        let l = self.run_len(x, y, dx, dy, p) as int;
        &&& l > 0
        &&& self.in_bounds(x + (l + 1) * dx, y + (l + 1) * dy)
        &&& self.cell(x + (l + 1) * dx, y + (l + 1) * dy) == Some(p)
    }

    /// How many discs placing on column `x`, row `y` flips in direction
    /// `(dx, dy)`: the whole opponent run when the target cell is empty
    /// and the run is terminated by the mover's disc, otherwise none.
    pub open spec fn dir_flip_count(&self, x: int, y: int, dx: int, dy: int, p: Player) -> nat {
        if self.cell(x, y) is None && self.dir_capped(x, y, dx, dy, p) {
            self.run_len(x, y, dx, dy, p)
        } else {
            0
        }
    }

    /// The positions flipped in direction `(dx, dy)`, nearest first.
    pub open spec fn dir_flips(&self, x: int, y: int, dx: int, dy: int, p: Player) -> Seq<Pos> {
        Seq::new(
            self.dir_flip_count(x, y, dx, dy, p),
            |k: int| Pos((x + (k + 1) * dx) as usize, (y + (k + 1) * dy) as usize),
        )
    }

    /// Every position flipped by placing seat `p`'s disc on `pos`, in
    /// scan order of the four directions: up, down, left, right.
    pub open spec fn spec_flips(&self, pos: Pos, p: Player) -> Seq<Pos> {
        let x = pos.0 as int;
        let y = pos.1 as int;
        self.dir_flips(x, y, 0, -1, p) + self.dir_flips(x, y, 0, 1, p) + self.dir_flips(
            x,
            y,
            -1,
            0,
            p,
        ) + self.dir_flips(x, y, 1, 0, p)
    }

    /// A move is legal for seat `p` iff its position is on the board and
    /// placing there flips at least one opposing disc.
    pub open spec fn spec_is_legal(&self, pos: Pos, p: Player) -> bool {
        self.in_bounds(pos.0 as int, pos.1 as int) && self.spec_flips(pos, p).len() > 0
    }

    /// Whether seat `p` has any legal move.
    pub open spec fn has_legal_move(&self, p: Player) -> bool {
        exists|pos: Pos| self.spec_is_legal(pos, p)
    }

    /// The legal moves of seat `p` among the first `k` positions in
    /// scan order (scan index `x·n + y`), themselves in scan order.
    pub open spec fn legal_seq_upto(&self, p: Player, k: int) -> Seq<Pos>
        decreases k,
    {
        if k <= 0 {
            Seq::empty()
        } else {
            let pos = Pos(((k - 1) / self.edge()) as usize, ((k - 1) % self.edge()) as usize);
            self.legal_seq_upto(p, k - 1) + (if self.spec_is_legal(pos, p) {
                seq![pos]
            } else {
                Seq::<Pos>::empty()
            })
        }
    }

    /// Every legal move of seat `p`, in scan order.
    pub open spec fn spec_legal_moves(&self, p: Player) -> Seq<Pos> {
        self.legal_seq_upto(p, self.edge() * self.edge())
    }

    /// The game is over once a misplay is recorded or neither seat has a
    /// legal move.
    pub open spec fn spec_game_over(&self) -> bool {
        self.misplay_loser() is Some || (!self.has_legal_move(Player::White)
            && !self.has_legal_move(Player::Black))
    }

    /// The winner: after a misplay the offender's opponent; otherwise the
    /// seat with the strict disc majority, and no winner on equal counts.
    pub open spec fn spec_winner(&self) -> Option<Player> {
        match self.misplay_loser() {
            Some(l) => Some(l.spec_flip()),
            None => if self.disc_count(Player::White) > self.disc_count(Player::Black) {
                Some(Player::White)
            } else if self.disc_count(Player::Black) > self.disc_count(Player::White) {
                Some(Player::Black)
            } else {
                None
            },
        }
    }

    /// Every cell of the opponent run is on the board and holds the
    /// opponent's disc.
    proof fn lemma_run_cells(&self, x: int, y: int, dx: int, dy: int, p: Player, k: int)
        requires
            self.wf(),
            unit_dir(dx, dy),
            0 <= k < self.run_len(x, y, dx, dy, p),
        ensures
            self.in_bounds(x + (k + 1) * dx, y + (k + 1) * dy),
            self.cell(x + (k + 1) * dx, y + (k + 1) * dy) == Some(p.spec_flip()),
        decreases k,
    {
        if k > 0 {
            self.lemma_run_cells(x + dx, y + dy, dx, dy, p, k - 1);
        }
    }

    /// Two games with equal boards agree on runs, flips, legality and
    /// move availability.
    proof fn lemma_run_len_congruent(
        g1: Game,
        g2: Game,
        x: int,
        y: int,
        dx: int,
        dy: int,
        p: Player,
    )
        requires
            g1.edge() == g2.edge(),
            forall|a: int, b: int| g1.cell(a, b) == g2.cell(a, b),
        ensures
            g1.run_len(x, y, dx, dy, p) == g2.run_len(x, y, dx, dy, p),
        decreases g1.dir_room(x, y, dx, dy),
    {
        if unit_dir(dx, dy) && g1.in_bounds(x + dx, y + dy) && g1.cell(x + dx, y + dy) == Some(
            p.spec_flip(),
        ) {
            Game::lemma_run_len_congruent(g1, g2, x + dx, y + dy, dx, dy, p);
        }
    }

    /// Two games with equal boards offer the same flips and the same
    /// legal moves to both seats.
    pub proof fn lemma_board_eq_moves(g1: Game, g2: Game)
        requires
            g1.edge() == g2.edge(),
            forall|a: int, b: int| g1.cell(a, b) == g2.cell(a, b),
        ensures
            forall|pos: Pos, p: Player| g1.spec_flips(pos, p) == g2.spec_flips(pos, p),
            forall|pos: Pos, p: Player| g1.spec_is_legal(pos, p) == g2.spec_is_legal(pos, p),
            forall|p: Player| g1.has_legal_move(p) == g2.has_legal_move(p),
    {
        assert forall|x: int, y: int, dx: int, dy: int, p: Player|
            unit_dir(dx, dy) implies g1.dir_flips(x, y, dx, dy, p) == g2.dir_flips(
            x,
            y,
            dx,
            dy,
            p,
        ) by {
            Game::lemma_run_len_congruent(g1, g2, x, y, dx, dy, p);
            let l1 = g1.run_len(x, y, dx, dy, p) as int;
            assert(g1.dir_flips(x, y, dx, dy, p) =~= g2.dir_flips(x, y, dx, dy, p));
        }
        assert forall|pos: Pos, p: Player| g1.spec_flips(pos, p) == g2.spec_flips(pos, p) by {
            assert(unit_dir(0, -1) && unit_dir(0, 1) && unit_dir(-1, 0) && unit_dir(1, 0));
        }
        assert forall|p: Player| g1.has_legal_move(p) == g2.has_legal_move(p) by {
            if g1.has_legal_move(p) {
                let pos = choose|pos: Pos| g1.spec_is_legal(pos, p);
                assert(g2.spec_is_legal(pos, p));
            }
            if g2.has_legal_move(p) {
                let pos = choose|pos: Pos| g2.spec_is_legal(pos, p);
                assert(g1.spec_is_legal(pos, p));
            }
        }
    }

    /// One move outward on the board, `None` when the step would leave it.
    fn step(&self, pos: Pos, dir: Dir) -> (r: Option<Pos>)
        requires
            self.wf(),
            self.in_bounds(pos.0 as int, pos.1 as int),
        ensures
            match r {
                Some(q) => {
                    &&& self.in_bounds(q.0 as int, q.1 as int)
                    &&& q.0 as int == pos.0 + dir.dx()
                    &&& q.1 as int == pos.1 + dir.dy()
                },
                None => !self.in_bounds(pos.0 + dir.dx(), pos.1 + dir.dy()),
            },
    {
        match dir {
            Dir::Up => if pos.1 == 0 {
                None
            } else {
                Some(Pos(pos.0, pos.1 - 1))
            },
            Dir::Down => if pos.1 + 1 >= self.n {
                None
            } else {
                Some(Pos(pos.0, pos.1 + 1))
            },
            Dir::Left => if pos.0 == 0 {
                None
            } else {
                Some(Pos(pos.0 - 1, pos.1))
            },
            Dir::Right => if pos.0 + 1 >= self.n {
                None
            } else {
                Some(Pos(pos.0 + 1, pos.1))
            },
        }
    }

    /// The discs flipped in one direction by placing seat `player`'s disc
    /// on `pos`: walk outward over the opponent's run and keep it only
    /// when a disc of `player` terminates it.
    fn flipped_if_placed_dir(&self, pos: Pos, dir: Dir, player: Player) -> (r: Vec<Pos>)
        requires
            self.wf(),
            self.in_bounds(pos.0 as int, pos.1 as int),
        ensures
            r@ == self.dir_flips(pos.0 as int, pos.1 as int, dir.dx(), dir.dy(), player),
    {
        let ghost px = pos.0 as int;
        let ghost py = pos.1 as int;
        let ghost dx = dir.dx();
        let ghost dy = dir.dy();
        if self.space(pos).is_some() {
            let r: Vec<Pos> = Vec::new();
            proof {
                assert(r@ =~= self.dir_flips(px, py, dx, dy, player));
            }
            return r;
        }
        let mut run: Vec<Pos> = Vec::new();
        let mut cur = pos;
        loop
            invariant
                self.wf(),
                self.in_bounds(px, py),
                self.cell(px, py) is None,
                unit_dir(dx, dy),
                dx == dir.dx(),
                dy == dir.dy(),
                pos.0 as int == px,
                pos.1 as int == py,
                self.in_bounds(cur.0 as int, cur.1 as int),
                cur.0 as int == px + run@.len() * dx,
                cur.1 as int == py + run@.len() * dy,
                forall|j: int|
                    0 <= j < run@.len() ==> run@[j] == Pos(
                        (px + (j + 1) * dx) as usize,
                        (py + (j + 1) * dy) as usize,
                    ),
                self.run_len(px, py, dx, dy, player) == run@.len() + self.run_len(
                    cur.0 as int,
                    cur.1 as int,
                    dx,
                    dy,
                    player,
                ),
            decreases self.dir_room(cur.0 as int, cur.1 as int, dx, dy),
        {
            let ghost l = run@.len() as int;
            match self.step(cur, dir) {
                None => {
                    let r: Vec<Pos> = Vec::new();
                    proof {
                        assert(self.run_len(cur.0 as int, cur.1 as int, dx, dy, player) == 0);
                        assert(!self.dir_capped(px, py, dx, dy, player));
                        assert(r@ =~= self.dir_flips(px, py, dx, dy, player));
                    }
                    return r;
                },
                Some(q) => {
                    match self.space(q) {
                        None => {
                            let r: Vec<Pos> = Vec::new();
                            proof {
                                assert(self.run_len(cur.0 as int, cur.1 as int, dx, dy, player)
                                    == 0);
                                assert(!self.dir_capped(px, py, dx, dy, player));
                                assert(r@ =~= self.dir_flips(px, py, dx, dy, player));
                            }
                            return r;
                        },
                        Some(c) => {
                            if c == player {
                                proof {
                                    assert(self.run_len(cur.0 as int, cur.1 as int, dx, dy, player)
                                        == 0);
                                    assert(self.run_len(px, py, dx, dy, player) == l);
                                    if l > 0 {
                                        assert(q.0 as int == px + (l + 1) * dx);
                                        assert(q.1 as int == py + (l + 1) * dy);
                                        assert(self.dir_capped(px, py, dx, dy, player));
                                    }
                                    assert(run@ =~= self.dir_flips(px, py, dx, dy, player));
                                }
                                return run;
                            } else {
                                proof {
                                    assert(c == player.spec_flip());
                                    assert(self.run_len(cur.0 as int, cur.1 as int, dx, dy, player)
                                        == 1 + self.run_len(q.0 as int, q.1 as int, dx, dy, player));
                                    assert(q.0 as int == px + (l + 1) * dx);
                                    assert(q.1 as int == py + (l + 1) * dy);
                                }
                                run.push(q);
                                cur = q;
                            }
                        },
                    }
                }
            }
        }
    }

    /// All discs flipped by placing seat `player`'s disc on `pos`, the
    /// four directions concatenated in scan order.
    fn flipped_if_placed(&self, pos: Pos, player: Player) -> (r: Vec<Pos>)
        requires
            self.wf(),
            self.in_bounds(pos.0 as int, pos.1 as int),
        ensures
            r@ == self.spec_flips(pos, player),
    {
        let mut r = self.flipped_if_placed_dir(pos, Dir::Up, player);
        let mut v2 = self.flipped_if_placed_dir(pos, Dir::Down, player);
        let mut v3 = self.flipped_if_placed_dir(pos, Dir::Left, player);
        let mut v4 = self.flipped_if_placed_dir(pos, Dir::Right, player);
        r.append(&mut v2);
        r.append(&mut v3);
        r.append(&mut v4);
        proof {
            assert(r@ =~= self.spec_flips(pos, player));
        }
        r
    }

    /// Whether placing seat `player`'s disc on `pos` is a legal move.
    pub fn is_legal_move(&self, pos: Pos, player: Player) -> (r: bool)
        requires
            self.wf(),
        ensures
            r == self.spec_is_legal(pos, player),
    {
        if !self.is_space(pos) {
            return false;
        }
        let f = self.flipped_if_placed(pos, player);
        f.len() > 0
    }
}

impl Game {
    /// Each flipped position in one direction lies on the board, holds
    /// the opponent's disc, and stands `k + 1` steps out.
    proof fn lemma_dir_flips_elems(&self, x: int, y: int, dx: int, dy: int, p: Player)
        requires
            self.wf(),
            unit_dir(dx, dy),
        ensures
            forall|k: int|
                #![trigger self.dir_flips(x, y, dx, dy, p)[k]]
                0 <= k < self.dir_flips(x, y, dx, dy, p).len() ==> {
                    let q = self.dir_flips(x, y, dx, dy, p)[k];
                    &&& q.0 as int == x + (k + 1) * dx
                    &&& q.1 as int == y + (k + 1) * dy
                    &&& self.in_bounds(q.0 as int, q.1 as int)
                    &&& self.cell(q.0 as int, q.1 as int) == Some(p.spec_flip())
                },
    {
        assert forall|k: int|
            #![trigger self.dir_flips(x, y, dx, dy, p)[k]]
            0 <= k < self.dir_flips(x, y, dx, dy, p).len() implies {
            let q = self.dir_flips(x, y, dx, dy, p)[k];
            &&& q.0 as int == x + (k + 1) * dx
            &&& q.1 as int == y + (k + 1) * dy
            &&& self.in_bounds(q.0 as int, q.1 as int)
            &&& self.cell(q.0 as int, q.1 as int) == Some(p.spec_flip())
        } by {
            self.lemma_run_cells(x, y, dx, dy, p, k);
        }
    }

    /// The flipped positions of a move: all on the board, all holding the
    /// opponent's disc, none the placed cell itself, and pairwise
    /// distinct.
    #[verifier::rlimit(60)]
    pub proof fn lemma_flips_props(&self, pos: Pos, p: Player)
        requires
            self.wf(),
            self.in_bounds(pos.0 as int, pos.1 as int),
        ensures
            forall|k: int|
                #![trigger self.spec_flips(pos, p)[k]]
                0 <= k < self.spec_flips(pos, p).len() ==> {
                    let q = self.spec_flips(pos, p)[k];
                    &&& self.in_bounds(q.0 as int, q.1 as int)
                    &&& self.cell(q.0 as int, q.1 as int) == Some(p.spec_flip())
                    &&& q != pos
                },
            forall|k: int, l: int|
                0 <= k < l < self.spec_flips(pos, p).len() ==> self.spec_flips(pos, p)[k]
                    != self.spec_flips(pos, p)[l],
    {
        let x = pos.0 as int;
        let y = pos.1 as int;
        self.lemma_dir_flips_elems(x, y, 0, -1, p);
        self.lemma_dir_flips_elems(x, y, 0, 1, p);
        self.lemma_dir_flips_elems(x, y, -1, 0, p);
        self.lemma_dir_flips_elems(x, y, 1, 0, p);
        let a = self.dir_flips(x, y, 0, -1, p);
        let b = self.dir_flips(x, y, 0, 1, p);
        let c = self.dir_flips(x, y, -1, 0, p);
        let d = self.dir_flips(x, y, 1, 0, p);
        let fs = self.spec_flips(pos, p);
        assert(fs == a + b + c + d);
        assert forall|k: int| #![trigger fs[k]] 0 <= k < fs.len() implies {
            let q = fs[k];
            &&& self.in_bounds(q.0 as int, q.1 as int)
            &&& self.cell(q.0 as int, q.1 as int) == Some(p.spec_flip())
            &&& q != pos
        } by {
            if k < a.len() {
                assert(fs[k] == a[k]);
                assert(a[k].1 as int == y - (k + 1));
            } else if k < a.len() + b.len() {
                assert(fs[k] == b[k - a.len()]);
            } else if k < a.len() + b.len() + c.len() {
                assert(fs[k] == c[k - a.len() - b.len()]);
            } else {
                assert(fs[k] == d[k - a.len() - b.len() - c.len()]);
            }
        }
        assert forall|k: int, l: int| 0 <= k < l < fs.len() implies fs[k] != fs[l] by {
            let na = a.len() as int;
            let nb = b.len() as int;
            let nc = c.len() as int;
            if k < na {
                assert(fs[k] == a[k]);
            } else if k < na + nb {
                assert(fs[k] == b[k - na]);
            } else if k < na + nb + nc {
                assert(fs[k] == c[k - na - nb]);
            } else {
                assert(fs[k] == d[k - na - nb - nc]);
            }
            if l < na {
                assert(fs[l] == a[l]);
            } else if l < na + nb {
                assert(fs[l] == b[l - na]);
            } else if l < na + nb + nc {
                assert(fs[l] == c[l - na - nb]);
            } else {
                assert(fs[l] == d[l - na - nb - nc]);
            }
        }
    }

    /// Every legal move for seat `player`, in strictly increasing scan
    /// order: a position is in the result exactly when it is legal.
    pub fn legal_moves(&self, player: Player) -> (r: Vec<Pos>)
        requires
            self.wf(),
        ensures
            r@ == self.spec_legal_moves(player),
            forall|q: Pos| r@.contains(q) <==> self.spec_is_legal(q, player),
            forall|i: int, j: int|
                0 <= i < j < r@.len() ==> self.scan_index(r@[i]) < self.scan_index(r@[j]),
    {
        let ghost n = self.n as int;
        let mut r: Vec<Pos> = Vec::new();
        let mut x: usize = 0;
        while x < self.n
            invariant
                self.wf(),
                n == self.n as int,
                x <= self.n,
                r@ == self.legal_seq_upto(player, x * n),
                forall|i: int|
                    0 <= i < r@.len() ==> self.spec_is_legal(#[trigger] r@[i], player)
                        && self.scan_index(r@[i]) < x * n,
                forall|q: Pos|
                    self.spec_is_legal(q, player) && self.scan_index(q) < x * n ==> r@.contains(q),
                forall|i: int, j: int|
                    0 <= i < j < r@.len() ==> self.scan_index(r@[i]) < self.scan_index(r@[j]),
            decreases self.n - x,
        {
            let mut y: usize = 0;
            while y < self.n
                invariant
                    self.wf(),
                    n == self.n as int,
                    x < self.n,
                    y <= self.n,
                    r@ == self.legal_seq_upto(player, x * n + y),
                    forall|i: int|
                        0 <= i < r@.len() ==> self.spec_is_legal(#[trigger] r@[i], player)
                            && self.scan_index(r@[i]) < x * n + y,
                    forall|q: Pos|
                        self.spec_is_legal(q, player) && self.scan_index(q) < x * n + y
                            ==> r@.contains(q),
                    forall|i: int, j: int|
                        0 <= i < j < r@.len() ==> self.scan_index(r@[i]) < self.scan_index(r@[j]),
                decreases self.n - y,
            {
                let pos = Pos(x, y);
                let ghost r0 = r@;
                if self.is_legal_move(pos, player) {
                    r.push(pos);
                }
                proof {
                    lemma_idx_inj_all(n);
                    let b = x as int * n + y as int;
                    lemma_fundamental_div_mod_converse(b, n, x as int, y as int);
                    assert(Pos((b / n) as usize, (b % n) as usize) == pos);
                    if self.spec_is_legal(pos, player) {
                        assert(r@ =~= r0 + seq![pos]);
                    } else {
                        assert(r@ =~= r0 + Seq::<Pos>::empty());
                    }
                    assert(r@ == self.legal_seq_upto(player, b + 1));
                    assert forall|q: Pos|
                        self.spec_is_legal(q, player) && self.scan_index(q) < x * n + y
                            + 1 implies r@.contains(q) by {
                        if self.scan_index(q) < x * n + y {
                            let i = choose|i: int| 0 <= i < r0.len() && r0[i] == q;
                            assert(r@[i] == q);
                        } else {
                            assert(q.0 as int * n + q.1 as int == x as int * n + y as int);
                            assert(q == pos);
                            assert(r@[r@.len() - 1] == q);
                        }
                    }
                }
                y += 1;
            }
            proof {
                assert((x + 1) as int * n == x as int * n + n) by (nonlinear_arith);
            }
            x += 1;
        }
        proof {
            assert forall|q: Pos| self.spec_is_legal(q, player) implies self.scan_index(q) < n
                * n by {
                lemma_offset_bound(q.1 as int, q.0 as int, n);
            }
            assert(x as int * n == n * n);
        }
        r
    }

    /// Whether the game is over: a recorded misplay, or no legal move
    /// for either seat.
    pub fn game_over(&self) -> (r: bool)
        requires
            self.wf(),
        ensures
            r == self.spec_game_over(),
    {
        if self.misplay.is_some() {
            return true;
        }
        let a = self.legal_moves(Player::White);
        let b = self.legal_moves(Player::Black);
        proof {
            if a@.len() > 0 {
                assert(a@.contains(a@[0]));
            }
            if b@.len() > 0 {
                assert(b@.contains(b@[0]));
            }
            if self.has_legal_move(Player::White) {
                let pos = choose|pos: Pos| self.spec_is_legal(pos, Player::White);
                assert(a@.contains(pos));
            }
            if self.has_legal_move(Player::Black) {
                let pos = choose|pos: Pos| self.spec_is_legal(pos, Player::Black);
                assert(b@.contains(pos));
            }
        }
        a.len() == 0 && b.len() == 0
    }

    /// The winner of a finished game.
    pub fn winner(&self) -> (r: Option<Player>)
        requires
            self.wf(),
            self.spec_game_over(),
        ensures
            r == self.spec_winner(),
    {
        if let Some(l) = self.misplay {
            return Some(l.flip());
        }
        proof {
            lemma_edge_sq(self.n as int);
        }
        let len = self.board.len();
        let mut w: usize = 0;
        let mut b: usize = 0;
        let mut i: usize = 0;
        while i < len
            invariant
                self.wf(),
                len == self.board@.len(),
                len <= 256,
                i <= len,
                w == count_matching(self.board@.take(i as int), Player::White),
                b == count_matching(self.board@.take(i as int), Player::Black),
                w <= i,
                b <= i,
            decreases len - i,
        {
            proof {
                lemma_count_take_step(self.board@, i as int, Player::White);
                lemma_count_take_step(self.board@, i as int, Player::Black);
                lemma_count_le(self.board@.take(i as int), Player::White);
                lemma_count_le(self.board@.take(i as int), Player::Black);
            }
            match self.board[i] {
                Some(Player::White) => { w += 1; },
                Some(Player::Black) => { b += 1; },
                None => {},
            }
            i += 1;
        }
        proof {
            assert(self.board@.take(len as int) =~= self.board@);
        }
        if w > b {
            Some(Player::White)
        } else if b > w {
            Some(Player::Black)
        } else {
            None
        }
    }

    /// Advances the turn without touching the board; allowed exactly when
    /// the seat to move has no legal move and the game is not over.
    pub fn skip(&mut self)
        requires
            old(self).wf(),
            !old(self).spec_game_over(),
            !old(self).has_legal_move(old(self).whose_turn()),
        ensures
            final(self).wf(),
            final(self).edge() == old(self).edge(),
            final(self).whose_turn() == old(self).whose_turn().spec_flip(),
            final(self).move_log() == old(self).move_log(),
            final(self).misplay_loser() is None,
            forall|x: int, y: int| final(self).cell(x, y) == old(self).cell(x, y),
            forall|p: Player| final(self).disc_count(p) == old(self).disc_count(p),
            forall|q: Pos, p: Player|
                final(self).spec_is_legal(q, p) == old(self).spec_is_legal(q, p),
            forall|p: Player| final(self).has_legal_move(p) == old(self).has_legal_move(p),
            !final(self).spec_game_over(),
            final(self).has_legal_move(final(self).whose_turn()),
    {
        let ghost g0 = *self;
        self.turn = self.turn.flip();
        proof {
            Game::lemma_board_eq_moves(*self, g0);
        }
    }

    /// Ends the game at once with the misplay flag set, recording the
    /// offending seat as the loser.
    pub fn misplay(&mut self, offender: Player)
        requires
            old(self).wf(),
            !old(self).spec_game_over(),
        ensures
            final(self).wf(),
            final(self).edge() == old(self).edge(),
            final(self).whose_turn() == old(self).whose_turn(),
            final(self).move_log() == old(self).move_log(),
            final(self).misplay_loser() == Some(offender),
            final(self).spec_game_over(),
            final(self).spec_winner() == Some(offender.spec_flip()),
            forall|x: int, y: int| final(self).cell(x, y) == old(self).cell(x, y),
            forall|p: Player| final(self).disc_count(p) == old(self).disc_count(p),
    {
        self.misplay = Some(offender);
    }

    /// Places the disc of the seat to move on a legal position, flips
    /// every terminated opponent run in all four directions, logs the
    /// move, and passes the turn. Occupancy grows by exactly one cell;
    /// the mover gains the placed disc plus every flipped one.
    #[verifier::rlimit(100)]
    pub fn play(&mut self, pos: Pos)
        requires
            old(self).wf(),
            !old(self).spec_game_over(),
            old(self).spec_is_legal(pos, old(self).whose_turn()),
        ensures
            final(self).wf(),
            final(self).edge() == old(self).edge(),
            final(self).whose_turn() == old(self).whose_turn().spec_flip(),
            final(self).misplay_loser() is None,
            final(self).move_log() == old(self).move_log().push(
                pos.spec_to_offset(old(self).edge()) as u8,
            ),
            forall|x: int, y: int|
                old(self).in_bounds(x, y) ==> final(self).cell(x, y) == (if (x == pos.0 as int
                    && y == pos.1 as int) || old(self).spec_flips(
                    pos,
                    old(self).whose_turn(),
                ).contains(Pos(x as usize, y as usize)) {
                    Some(old(self).whose_turn())
                } else {
                    old(self).cell(x, y)
                }),
            final(self).occupied_count() == old(self).occupied_count() + 1,
            final(self).disc_count(old(self).whose_turn()) == old(self).disc_count(
                old(self).whose_turn(),
            ) + 1 + old(self).spec_flips(pos, old(self).whose_turn()).len(),
            old(self).disc_count(old(self).whose_turn().spec_flip()) == final(self).disc_count(
                old(self).whose_turn().spec_flip(),
            ) + old(self).spec_flips(pos, old(self).whose_turn()).len(),
    {
        let ghost g0 = *self;
        let ghost n = self.n as int;
        let t = self.turn;
        proof {
            self.lemma_flips_props(pos, t);
            lemma_idx_inj_all(n);
        }
        let ghost f = self.spec_flips(pos, t);
        let flips = self.flipped_if_placed(pos, t);
        let mut i: usize = 0;
        while i < flips.len()
            invariant
                g0.wf(),
                n == g0.n as int,
                flips@ == f,
                f == g0.spec_flips(pos, t),
                i <= f.len(),
                t == g0.turn,
                g0.in_bounds(pos.0 as int, pos.1 as int),
                forall|k: int|
                    0 <= k < f.len() ==> {
                        let q = #[trigger] f[k];
                        &&& g0.in_bounds(q.0 as int, q.1 as int)
                        &&& g0.cell(q.0 as int, q.1 as int) == Some(t.spec_flip())
                        &&& q != pos
                    },
                forall|k: int, l: int| 0 <= k < l < f.len() ==> f[k] != f[l],
                self.wf(),
                self.n == g0.n,
                self.turn == g0.turn,
                self.moves@ == g0.moves@,
                self.misplay == g0.misplay,
                self.board@.len() == g0.board@.len(),
                forall|q: Pos|
                    g0.in_bounds(q.0 as int, q.1 as int) ==> self.cell(q.0 as int, q.1 as int)
                        == (if exists|j: int| 0 <= j < i && f[j] == q {
                        Some(t)
                    } else {
                        g0.cell(q.0 as int, q.1 as int)
                    }),
                count_matching(self.board@, t) == count_matching(g0.board@, t) + i,
                count_matching(self.board@, t.spec_flip()) + i == count_matching(
                    g0.board@,
                    t.spec_flip(),
                ),
            decreases flips@.len() - i,
        {
            let q = flips[i];
            proof {
                lemma_idx_inj_all(n);
                lemma_offset_bound(q.1 as int, q.0 as int, n);
                assert(!(exists|j: int| 0 <= j < i && f[j] == q));
                assert(self.cell(q.0 as int, q.1 as int) == Some(t.spec_flip()));
                let idx = (q.0 as int) * n + (q.1 as int);
                lemma_count_update(self.board@, idx, Some(t), t);
                lemma_count_update(self.board@, idx, Some(t), t.spec_flip());
            }
            let ghost prev = *self;
            self.set(q, t);
            proof {
                assert forall|qq: Pos| g0.in_bounds(qq.0 as int, qq.1 as int) implies self.cell(
                    qq.0 as int,
                    qq.1 as int,
                ) == (if exists|j: int| 0 <= j < i + 1 && f[j] == qq {
                    Some(t)
                } else {
                    g0.cell(qq.0 as int, qq.1 as int)
                }) by {
                    lemma_offset_bound(qq.1 as int, qq.0 as int, n);
                    if qq == q {
                        assert(f[i as int] == qq);
                    } else {
                        assert((qq.0 as int) * n + (qq.1 as int) != (q.0 as int) * n + (
                        q.1 as int));
                        if exists|j: int| 0 <= j < i + 1 && f[j] == qq {
                            let j = choose|j: int| 0 <= j < i + 1 && f[j] == qq;
                            assert(0 <= j < i && f[j] == qq);
                        }
                    }
                }
            }
            i += 1;
        }
        proof {
            assert(self.cell(pos.0 as int, pos.1 as int) == g0.cell(pos.0 as int, pos.1 as int));
            assert(g0.cell(pos.0 as int, pos.1 as int) is None);
            let idx = (pos.0 as int) * n + (pos.1 as int);
            lemma_offset_bound(pos.1 as int, pos.0 as int, n);
            lemma_count_update(self.board@, idx, Some(t), t);
            lemma_count_update(self.board@, idx, Some(t), t.spec_flip());
        }
        let ghost before_place = *self;
        self.set(pos, t);
        let off = pos.to_offset(self.n);
        self.moves.push(off);
        self.turn = t.flip();
        proof {
            lemma_idx_inj_all(n);
            assert forall|x: int, y: int| g0.in_bounds(x, y) implies self.cell(x, y) == (if (x
                == pos.0 as int && y == pos.1 as int) || f.contains(Pos(x as usize, y as usize)) {
                Some(t)
            } else {
                g0.cell(x, y)
            }) by {
                lemma_offset_bound(y, x, n);
                let qq = Pos(x as usize, y as usize);
                assert(qq.0 as int == x && qq.1 as int == y);
                assert(g0.in_bounds(qq.0 as int, qq.1 as int));
                assert(before_place.cell(qq.0 as int, qq.1 as int) == (if exists|j: int|
                    0 <= j < f.len() && f[j] == qq {
                    Some(t)
                } else {
                    g0.cell(qq.0 as int, qq.1 as int)
                }));
                if x == pos.0 as int && y == pos.1 as int {
                    assert(self.cell(x, y) == Some(t));
                } else {
                    assert((x * n + y) != (pos.0 as int) * n + (pos.1 as int));
                    assert(self.cell(qq.0 as int, qq.1 as int) == before_place.cell(
                        qq.0 as int,
                        qq.1 as int,
                    ));
                    if f.contains(qq) {
                        let j = choose|j: int| 0 <= j < f.len() && f[j] == qq;
                        assert(exists|j: int| 0 <= j < f.len() && f[j] == qq);
                        assert(self.cell(x, y) == Some(t));
                    } else {
                        assert(!(exists|j: int| 0 <= j < f.len() && f[j] == qq));
                        assert(self.cell(x, y) == g0.cell(x, y));
                    }
                }
            }
        }
    }
}

/// A legal move always targets an empty cell: the legal-move set never
/// includes an already-occupied position.
pub proof fn lemma_legal_move_unoccupied(g: Game, pos: Pos, p: Player)
    requires
        g.wf(),
        g.spec_is_legal(pos, p),
    ensures
        g.cell(pos.0 as int, pos.1 as int) is None,
{
}

/// The wire byte of one cell's contents.
pub open spec fn cell_code(c: Option<Player>) -> u8 {
    match c {
        None => 0,
        Some(Player::White) => 1,
        Some(Player::Black) => 2,
    }
}

/// A row of cells that are all empty holds no disc of any seat.
pub proof fn lemma_count_none(s: Seq<Option<Player>>, p: Player)
    requires
        forall|j: int| 0 <= j < s.len() ==> s[j] is None,
    ensures
        count_matching(s, p) == 0,
    decreases s.len(),
{
    if s.len() > 0 {
        lemma_count_none(s.drop_last(), p);
    }
}

/// The two seats' discs together never outnumber the cells.
pub proof fn lemma_count_two_players_le(s: Seq<Option<Player>>)
    ensures
        count_matching(s, Player::White) + count_matching(s, Player::Black) <= s.len(),
    decreases s.len(),
{
    if s.len() > 0 {
        lemma_count_two_players_le(s.drop_last());
    }
}

/// Offsets of distinct on-board positions differ (quantified form).
pub proof fn lemma_idx_inj_all(n: int)
    requires
        0 < n,
    ensures
        forall|x1: int, y1: int, x2: int, y2: int|
            0 <= x1 < n && 0 <= y1 < n && 0 <= x2 < n && 0 <= y2 < n && #[trigger] (x1 * n + y1)
                == #[trigger] (x2 * n + y2) ==> x1 == x2 && y1 == y2,
{
    assert forall|x1: int, y1: int, x2: int, y2: int|
        0 <= x1 < n && 0 <= y1 < n && 0 <= x2 < n && 0 <= y2 < n && #[trigger] (x1 * n + y1)
            == #[trigger] (x2 * n + y2) implies x1 == x2 && y1 == y2 by {
        lemma_idx_inj(n, x1, y1, x2, y2);
    }
}

} // verus!
