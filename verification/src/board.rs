//! The rules engine: board representation and move generation for an 8x8
//! draughts variant with mandatory captures, multi-jumps and promotion.

use vstd::prelude::*;

verus! {

/// Contents of one square.
#[derive(Clone, Copy, PartialEq, Eq, Structural, Debug)]
pub enum Color {
    Empty,
    WhiteNormal,
    WhiteDame,
    BlackNormal,
    BlackDame,
}

/// A side, or no side (used for "no winner yet").
#[derive(Clone, Copy, PartialEq, Eq, Structural, Debug)]
pub enum Player {
    White,
    Black,
    Nobody,
}

/// A square coordinate handed out to callers.
#[derive(Clone, Copy, PartialEq, Eq, Structural, Debug)]
pub struct Point {
    pub x: i32,
    pub y: i32,
}

impl Point {
    pub fn new(x: i32, y: i32) -> (r: Point)
        ensures
            r.x == x,
            r.y == y,
    {
        Point { x, y }
    }
}

/// True for coordinates that lie on the 8x8 board.
pub open spec fn on_board(x: int, y: int) -> bool {
    0 <= x < 8 && 0 <= y < 8
}

/// The cell index of an on-board coordinate.
pub open spec fn sq(x: int, y: int) -> int {
    y * 8 + x
}

/// The piece colors that belong to Black.
pub open spec fn color_is_black(c: Color) -> bool {
    c == Color::BlackNormal || c == Color::BlackDame
}

/// The piece colors that belong to White.
pub open spec fn color_is_white(c: Color) -> bool {
    c == Color::WhiteNormal || c == Color::WhiteDame
}

/// Whether color `c` belongs to player `p`.
pub open spec fn color_of_player(c: Color, p: Player) -> bool {
    match p {
        Player::Black => color_is_black(c),
        Player::White => color_is_white(c),
        Player::Nobody => false,
    }
}

/// The cell at an on-board coordinate of a 64-cell sequence.
pub open spec fn cell(b: Seq<Color>, x: int, y: int) -> Color {
    b[sq(x, y)]
}

/// The coordinate is on the board and its square is empty.
pub open spec fn empty_at(b: Seq<Color>, x: int, y: int) -> bool {
    on_board(x, y) && cell(b, x, y) == Color::Empty
}

/// The coordinate is on the board and holds a piece of player `p`.
pub open spec fn owned_by(b: Seq<Color>, x: int, y: int, p: Player) -> bool {
    on_board(x, y) && color_of_player(cell(b, x, y), p)
}

/// The side opposing `p`.
pub open spec fn opponent(p: Player) -> Player {
    if p == Player::Black {
        Player::White
    } else {
        Player::Black
    }
}

/// A diagonal jump from `(x, y)` in x-direction `sx` and y-direction `dy` is
/// available: the landing square two away is empty and the square jumped over
/// holds a piece of player `p` (the opponent of the piece's owner).
pub open spec fn jump_ok(b: Seq<Color>, x: i32, y: i32, sx: int, dy: int, p: Player) -> bool {
    empty_at(b, x + 2 * sx, y + 2 * dy) && owned_by(b, x + sx, y + dy, p)
}

/// The jump destinations from `(x, y)` in y-direction `dy`, left candidate
/// first.
pub open spec fn dir_jumps(b: Seq<Color>, x: i32, y: i32, dy: i32, p: Player) -> Seq<(i32, i32)> {
    let jl = jump_ok(b, x, y, -1, dy as int, p);
    let jr = jump_ok(b, x, y, 1, dy as int, p);
    let el = (((x - 2) as i32), ((y + 2 * dy) as i32));
    let er = (((x + 2) as i32), ((y + 2 * dy) as i32));
    if jl && jr {
        seq![el, er]
    } else if jl {
        seq![el]
    } else if jr {
        seq![er]
    } else {
        Seq::empty()
    }
}

/// The simple-step destinations from `(x, y)` in y-direction `dy`, left
/// candidate first.
pub open spec fn dir_steps(b: Seq<Color>, x: i32, y: i32, dy: i32) -> Seq<(i32, i32)> {
    let sl = empty_at(b, x - 1, y + dy);
    let sr = empty_at(b, x + 1, y + dy);
    let el = (((x - 1) as i32), ((y + dy) as i32));
    let er = (((x + 1) as i32), ((y + dy) as i32));
    if sl && sr {
        seq![el, er]
    } else if sl {
        seq![el]
    } else if sr {
        seq![er]
    } else {
        Seq::empty()
    }
}

/// All jump destinations of the piece at `(x, y)`: men search only their
/// forward direction, dames both directions (downward first).
pub open spec fn piece_jumps(b: Seq<Color>, x: i32, y: i32) -> Seq<(i32, i32)> {
    match cell(b, x as int, y as int) {
        Color::WhiteNormal => dir_jumps(b, x, y, 1i32, Player::Black),
        Color::WhiteDame => dir_jumps(b, x, y, 1i32, Player::Black) + dir_jumps(
            b,
            x,
            y,
            -1i32,
            Player::Black,
        ),
        Color::BlackNormal => dir_jumps(b, x, y, -1i32, Player::White),
        Color::BlackDame => dir_jumps(b, x, y, 1i32, Player::White) + dir_jumps(
            b,
            x,
            y,
            -1i32,
            Player::White,
        ),
        Color::Empty => Seq::empty(),
    }
}

/// All simple-step destinations of the piece at `(x, y)`.
pub open spec fn piece_steps(b: Seq<Color>, x: i32, y: i32) -> Seq<(i32, i32)> {
    match cell(b, x as int, y as int) {
        Color::WhiteNormal => dir_steps(b, x, y, 1i32),
        Color::WhiteDame => dir_steps(b, x, y, 1i32) + dir_steps(b, x, y, -1i32),
        Color::BlackNormal => dir_steps(b, x, y, -1i32),
        Color::BlackDame => dir_steps(b, x, y, 1i32) + dir_steps(b, x, y, -1i32),
        Color::Empty => Seq::empty(),
    }
}

/// The legal destinations of the piece at `(x, y)` when it is `turn`'s move:
/// nothing unless the square holds a piece of the side to move; otherwise its
/// jumps if it has any (capturing is mandatory for the piece), else its steps.
pub open spec fn piece_moves(b: Seq<Color>, turn: Player, x: i32, y: i32) -> Seq<(i32, i32)> {
    if on_board(x as int, y as int) && color_of_player(cell(b, x as int, y as int), turn) {
        if piece_jumps(b, x, y).len() > 0 {
            piece_jumps(b, x, y)
        } else {
            piece_steps(b, x, y)
        }
    } else {
        Seq::empty()
    }
}

/// The piece at `(x, y)` belongs to `turn` and has at least one jump.
pub open spec fn can_jump(b: Seq<Color>, turn: Player, x: i32, y: i32) -> bool {
    &&& on_board(x as int, y as int)
    &&& color_of_player(cell(b, x as int, y as int), turn)
    &&& piece_jumps(b, x, y).len() > 0
}

proof fn lemma_add_contains<T>(a: Seq<T>, b: Seq<T>, m: T)
    requires
        (a + b).contains(m),
    ensures
        a.contains(m) || b.contains(m),
{
    let k = choose|k: int| 0 <= k < (a + b).len() && (a + b)[k] == m;
    if k < a.len() {
        assert(a[k] == m);
    } else {
        assert(b[k - a.len()] == m);
    }
}

/// Every jump destination is two columns away from the source, on an empty
/// square, with an opponent piece on the square in between.
proof fn lemma_dir_jumps_elem(b: Seq<Color>, x: i32, y: i32, dy: i32, p: Player, m: (i32, i32))
    requires
        dir_jumps(b, x, y, dy, p).contains(m),
        dy == 1i32 || dy == -1i32,
    ensures
        m.0 - x == 2 || m.0 - x == -2,
        m.1 - y == 2 * dy,
        empty_at(b, m.0 as int, m.1 as int),
        owned_by(b, (x + m.0) / 2, (y + m.1) / 2, p),
{
    let s = dir_jumps(b, x, y, dy, p);
    let k = choose|k: int| 0 <= k < s.len() && s[k] == m;
}

/// Every step destination is one column away from the source, on an empty
/// square.
proof fn lemma_dir_steps_elem(b: Seq<Color>, x: i32, y: i32, dy: i32, m: (i32, i32))
    requires
        dir_steps(b, x, y, dy).contains(m),
        dy == 1i32 || dy == -1i32,
    ensures
        m.0 - x == 1 || m.0 - x == -1,
        m.1 - y == dy,
        empty_at(b, m.0 as int, m.1 as int),
{
    let s = dir_steps(b, x, y, dy);
    let k = choose|k: int| 0 <= k < s.len() && s[k] == m;
}

/// What membership in a piece's legal destinations implies: the piece belongs
/// to the side to move, the destination is empty, and the move is either a
/// jump (two away diagonally, over an opponent piece, and only when the piece
/// has a jump) or a step (one away diagonally, only when it has none).
pub proof fn lemma_move_props(b: Seq<Color>, t: Player, x: i32, y: i32, m: (i32, i32))
    requires
        piece_moves(b, t, x, y).contains(m),
    ensures
        on_board(x as int, y as int),
        color_of_player(cell(b, x as int, y as int), t),
        empty_at(b, m.0 as int, m.1 as int),
        (m.0 - x == 2 || m.0 - x == -2) <==> (m.1 - y == 2 || m.1 - y == -2),
        (m.0 - x == 1 || m.0 - x == -1) <==> (m.1 - y == 1 || m.1 - y == -1),
        m.0 - x == 2 || m.0 - x == -2 || m.0 - x == 1 || m.0 - x == -1,
        (m.0 - x == 2 || m.0 - x == -2) ==> owned_by(b, (x + m.0) / 2, (y + m.1) / 2, opponent(t))
            && piece_jumps(b, x, y).len() > 0,
        (m.0 - x == 1 || m.0 - x == -1) ==> piece_jumps(b, x, y).len() == 0,
{
    let pm = piece_moves(b, t, x, y);
    let c = cell(b, x as int, y as int);
    if piece_jumps(b, x, y).len() > 0 {
        assert(pm == piece_jumps(b, x, y));
        match c {
            Color::WhiteNormal => {
                lemma_dir_jumps_elem(b, x, y, 1i32, Player::Black, m);
            },
            Color::WhiteDame => {
                lemma_add_contains(
                    dir_jumps(b, x, y, 1i32, Player::Black),
                    dir_jumps(b, x, y, -1i32, Player::Black),
                    m,
                );
                if dir_jumps(b, x, y, 1i32, Player::Black).contains(m) {
                    lemma_dir_jumps_elem(b, x, y, 1i32, Player::Black, m);
                } else {
                    lemma_dir_jumps_elem(b, x, y, -1i32, Player::Black, m);
                }
            },
            Color::BlackNormal => {
                lemma_dir_jumps_elem(b, x, y, -1i32, Player::White, m);
            },
            Color::BlackDame => {
                lemma_add_contains(
                    dir_jumps(b, x, y, 1i32, Player::White),
                    dir_jumps(b, x, y, -1i32, Player::White),
                    m,
                );
                if dir_jumps(b, x, y, 1i32, Player::White).contains(m) {
                    lemma_dir_jumps_elem(b, x, y, 1i32, Player::White, m);
                } else {
                    lemma_dir_jumps_elem(b, x, y, -1i32, Player::White, m);
                }
            },
            Color::Empty => {},
        }
    } else {
        assert(pm == piece_steps(b, x, y));
        match c {
            Color::WhiteNormal => {
                lemma_dir_steps_elem(b, x, y, 1i32, m);
            },
            Color::WhiteDame => {
                lemma_add_contains(dir_steps(b, x, y, 1i32), dir_steps(b, x, y, -1i32), m);
                if dir_steps(b, x, y, 1i32).contains(m) {
                    lemma_dir_steps_elem(b, x, y, 1i32, m);
                } else {
                    lemma_dir_steps_elem(b, x, y, -1i32, m);
                }
            },
            Color::BlackNormal => {
                lemma_dir_steps_elem(b, x, y, -1i32, m);
            },
            Color::BlackDame => {
                lemma_add_contains(dir_steps(b, x, y, 1i32), dir_steps(b, x, y, -1i32), m);
                if dir_steps(b, x, y, 1i32).contains(m) {
                    lemma_dir_steps_elem(b, x, y, 1i32, m);
                } else {
                    lemma_dir_steps_elem(b, x, y, -1i32, m);
                }
            },
            Color::Empty => {},
        }
    }
}

/// Bit `i` of the occupancy mask.
pub open spec fn bit_set(m: u64, i: u64) -> bool {
    (m >> i) & 1 == 1
}

proof fn lemma_bit_or(m: u64, p: u64, j: u64)
    requires
        p < 64,
        j < 64,
    ensures
        bit_set(m | (1u64 << p), j) == (j == p || bit_set(m, j)),
{
    assert(p < 64 && j < 64 ==> (((m | (1u64 << p)) >> j) & 1 == 1) == (j == p || (m >> j) & 1
        == 1)) by (bit_vector);
}

proof fn lemma_bit_and_not(m: u64, p: u64, j: u64)
    requires
        p < 64,
        j < 64,
    ensures
        bit_set(m & !(1u64 << p), j) == (j != p && bit_set(m, j)),
{
    assert(p < 64 && j < 64 ==> (((m & !(1u64 << p)) >> j) & 1 == 1) == (j != p && (m >> j) & 1
        == 1)) by (bit_vector);
}

proof fn lemma_bit_test(m: u64, p: u64)
    requires
        p < 64,
    ensures
        (m & (1u64 << p) == 0) == !bit_set(m, p),
{
    assert(p < 64 ==> (m & (1u64 << p) == 0) == !((m >> p) & 1 == 1)) by (bit_vector);
}

proof fn lemma_bit_zero(j: u64)
    ensures
        !bit_set(0u64, j),
{
    assert((0u64 >> j) & 1 != 1) by (bit_vector);
}

/// The authoritative game state: cells, derived occupancy structures, whose
/// turn it is, the cached eligible movers, the winner and the move log.
#[derive(Debug)]
pub struct Board {
    pub board_bitmask: u64,
    pub positions: Vec<(i32, i32)>,
    pub board: Vec<Color>,
    pub next_move: Player,
    pub valid_pieces_to_move: Vec<(i32, i32)>,
    pub winner: Player,
    pub last_moves: Vec<(i32, i32, i32, i32)>,
    pub move_no: i32,
}

impl Board {
    /// The board has 64 cells and the occupancy mask mirrors them: bit `i` is
    /// set exactly when cell `i` is not empty.
    pub open spec fn mask_ok(self) -> bool {
        &&& self.board@.len() == 64
        &&& forall|i: u64|
            i < 64 ==> (#[trigger] bit_set(self.board_bitmask, i) <==> self.board@[i as int]
                != Color::Empty)
    }

    /// The dense position list holds exactly the occupied coordinates, each
    /// once.
    pub open spec fn positions_ok(self) -> bool {
        &&& self.positions@.len() <= 64
        &&& forall|k: int|
            0 <= k < self.positions@.len() ==> on_board(
                (#[trigger] self.positions@[k]).0 as int,
                self.positions@[k].1 as int,
            ) && cell(self.board@, self.positions@[k].0 as int, self.positions@[k].1 as int)
                != Color::Empty
        &&& forall|x: i32, y: i32|
            on_board(x as int, y as int) && cell(self.board@, x as int, y as int) != Color::Empty
                ==> #[trigger] self.positions@.contains((x, y))
        &&& self.positions@.no_duplicates()
    }

    /// Structural well-formedness of the cell data: mask and position list
    /// agree with the cells, and it is some side's turn.
    pub open spec fn cells_ok(self) -> bool {
        &&& self.mask_ok()
        &&& self.positions_ok()
        &&& self.next_move != Player::Nobody
    }

    pub fn index(&self, x: i32, y: i32) -> (r: Option<usize>)
        ensures
            r == if on_board(x as int, y as int) {
                Some(sq(x as int, y as int) as usize)
            } else {
                Option::<usize>::None
            },
    {
        if x >= 0 && x < 8 && y >= 0 && y < 8 {
            Some((y * 8 + x) as usize)
        } else {
            None
        }
    }

    pub fn color(&self, x: i32, y: i32) -> (r: Option<Color>)
        requires
            self.board@.len() == 64,
        ensures
            r == if on_board(x as int, y as int) {
                Some(cell(self.board@, x as int, y as int))
            } else {
                Option::<Color>::None
            },
    {
        match self.index(x, y) {
            Some(p) => Some(self.board[p]),
            _ => None,
        }
    }

    pub fn is_black(&self, c: Color) -> (r: bool)
        ensures
            r == color_is_black(c),
    {
        c == Color::BlackNormal || c == Color::BlackDame
    }

    pub fn is_white(&self, c: Color) -> (r: bool)
        ensures
            r == color_is_white(c),
    {
        c == Color::WhiteNormal || c == Color::WhiteDame
    }

    /// Whether color `c` belongs to the side to move.
    pub fn matching(&self, c: Color) -> (r: bool)
        ensures
            r == color_of_player(c, self.next_move),
    {
        (self.next_move == Player::Black && self.is_black(c)) || (self.next_move == Player::White
            && self.is_white(c))
    }

    /// Whether the square at `(x, y)` holds exactly color `c`.
    pub fn is_color(&self, x: i32, y: i32, c: Color) -> (r: bool)
        requires
            self.board@.len() == 64,
            on_board(x as int, y as int),
        ensures
            r == (cell(self.board@, x as int, y as int) == c),
    {
        self.color(x, y).unwrap() == c
    }

    /// Emptiness test through the occupancy mask: the hot-path form of
    /// "on the board and unoccupied".
    pub fn is_empty(&self, x: i32, y: i32) -> (r: bool)
        requires
            self.mask_ok(),
        ensures
            r == empty_at(self.board@, x as int, y as int),
    {
        match self.index(x, y) {
            Some(p) => {
                let mut i: u64 = 1;
                i <<= p;
                proof {
                    lemma_bit_test(self.board_bitmask, p as u64);
                }
                (self.board_bitmask & i) == 0
            },
            _ => false,
        }
    }

    pub fn is_player(&self, x: i32, y: i32, p: Player) -> (r: bool)
        requires
            self.board@.len() == 64,
            on_board(x as int, y as int),
        ensures
            r == owned_by(self.board@, x as int, y as int, p),
    {
        let c = self.color(x, y).unwrap();
        match p {
            Player::Black => self.is_black(c),
            Player::White => self.is_white(c),
            _ => false,
        }
    }

    pub fn other_player(&self, p: Player) -> (r: Player)
        requires
            p != Player::Nobody,
        ensures
            r == opponent(p),
    {
        match p {
            Player::Black => Player::White,
            _ => Player::Black,
        }
    }

    pub fn is_normal(&self, x: i32, y: i32) -> (r: bool)
        requires
            self.board@.len() == 64,
            on_board(x as int, y as int),
        ensures
            r == (cell(self.board@, x as int, y as int) == Color::BlackNormal || cell(
                self.board@,
                x as int,
                y as int,
            ) == Color::WhiteNormal),
    {
        let p = self.index(x, y).unwrap();
        self.board[p] == Color::BlackNormal || self.board[p] == Color::WhiteNormal
    }

    pub fn is_dame(&self, x: i32, y: i32) -> (r: bool)
        requires
            self.board@.len() == 64,
            on_board(x as int, y as int),
        ensures
            r == (cell(self.board@, x as int, y as int) == Color::BlackDame || cell(
                self.board@,
                x as int,
                y as int,
            ) == Color::WhiteDame),
    {
        let p = self.index(x, y).unwrap();
        self.board[p] == Color::BlackDame || self.board[p] == Color::WhiteDame
    }

    fn set_bit(&mut self, p: usize)
        requires
            p < 64,
        ensures
            final(self).board_bitmask == old(self).board_bitmask | (1u64 << (p as u64)),
            forall|j: u64|
                j < 64 ==> (#[trigger] bit_set(final(self).board_bitmask, j) == (j == p as u64
                    || bit_set(old(self).board_bitmask, j))),
            *final(self) == (Board { board_bitmask: final(self).board_bitmask, ..*old(self) }),
    {
        let mut i: u64 = 1;
        i <<= p;
        self.board_bitmask |= i;
        proof {
            assert forall|j: u64| j < 64 implies #[trigger] bit_set(self.board_bitmask, j) == (j
                == p as u64 || bit_set(old(self).board_bitmask, j)) by {
                lemma_bit_or(old(self).board_bitmask, p as u64, j);
            }
        }
    }

    pub fn clear_bit(&mut self, p: usize)
        requires
            p < 64,
        ensures
            forall|j: u64|
                j < 64 ==> (#[trigger] bit_set(final(self).board_bitmask, j) == (j != p as u64
                    && bit_set(old(self).board_bitmask, j))),
            *final(self) == (Board { board_bitmask: final(self).board_bitmask, ..*old(self) }),
    {
        let mut i: u64 = 1;
        i <<= p;
        i = !i;
        self.board_bitmask &= i;
        proof {
            assert forall|j: u64| j < 64 implies #[trigger] bit_set(self.board_bitmask, j) == (j
                != p as u64 && bit_set(old(self).board_bitmask, j)) by {
                lemma_bit_and_not(old(self).board_bitmask, p as u64, j);
            }
        }
    }

    /// One direction pass of the move generator, collecting into `v`. On
    /// entry `v` holds what an earlier pass found; a freshly found jump
    /// discards earlier steps, because capturing is mandatory for the piece.
    fn move_piece(&self, x: i32, y: i32, dy: i32, p: Player, v: &mut Vec<(i32, i32)>)
        requires
            self.mask_ok(),
            on_board(x as int, y as int),
            dy == 1i32 || dy == -1i32,
            all_on_board(old(v)@),
        ensures
            ({
                let j = dir_jumps(self.board@, x, y, dy, p);
                let s = dir_steps(self.board@, x, y, dy);
                if holds_jump(old(v)@, x) {
                    final(v)@ == old(v)@ + j
                } else if j.len() > 0 {
                    final(v)@ == j
                } else {
                    final(v)@ == old(v)@ + s
                }
            }),
            all_on_board(final(v)@),
    {
        let ghost j = dir_jumps(self.board@, x, y, dy, p);
        let ghost s = dir_steps(self.board@, x, y, dy);
        let mut u = false;
        if v.len() > 0 {
            let d = v[0].0 - x;
            if d == 2 || d == -2 {
                u = true;
            }
        }
        let ghost u0 = u;

        if self.is_empty(x - 2, y + dy * 2) && self.is_player(x - 1, y + dy, p) {
            if !u {
                v.clear();
            }
            v.push((x - 2, y + dy * 2));
            u = true;
        }
        if self.is_empty(x + 2, y + dy * 2) && self.is_player(x + 1, y + dy, p) {
            if !u {
                v.clear();
            }
            v.push((x + 2, y + dy * 2));
            u = true;
        }

        // A found jump is mandatory for this piece: steps are searched only
        // when no jump was found by this pass or an earlier one.
        if !u {
            if self.is_empty(x - 1, y + dy) {
                v.push((x - 1, y + dy));
            }
            if self.is_empty(x + 1, y + dy) {
                v.push((x + 1, y + dy));
            }
        }

        proof {
            if u0 {
                assert(v@ =~= old(v)@ + j);
            } else if j.len() > 0 {
                assert(v@ =~= j);
            } else {
                assert(v@ =~= old(v)@ + s);
            }
        }
    }

    /// Fill `r` with the legal destinations of the piece at `(x, y)`.
    fn get_moves_for(&self, x: i32, y: i32, r: &mut MoveFor)
        requires
            self.mask_ok(),
        ensures
            final(r).v@ == piece_moves(self.board@, self.next_move, x, y),
            all_on_board(final(r).v@),
    {
        let ghost bv = self.board@;
        r.v.clear();
        match self.color(x, y) {
            Some(c) => {
                if self.matching(c) {
                    match c {
                        Color::WhiteNormal => {
                            self.move_piece(x, y, 1, Player::Black, &mut r.v);
                        },
                        Color::WhiteDame => {
                            self.move_piece(x, y, 1, Player::Black, &mut r.v);
                            proof {
                                self.lemma_first_pass(x, y, 1i32, Player::Black, r.v@);
                            }
                            self.move_piece(x, y, -1, Player::Black, &mut r.v);
                        },
                        Color::BlackNormal => {
                            self.move_piece(x, y, -1, Player::White, &mut r.v);
                        },
                        Color::BlackDame => {
                            self.move_piece(x, y, 1, Player::White, &mut r.v);
                            proof {
                                self.lemma_first_pass(x, y, 1i32, Player::White, r.v@);
                            }
                            self.move_piece(x, y, -1, Player::White, &mut r.v);
                        },
                        _ => {},
                    }
                    proof {
                        self.lemma_two_passes(x, y, c);
                    }
                }
            },
            _ => {},
        }
        proof {
            if !(on_board(x as int, y as int) && color_of_player(
                cell(bv, x as int, y as int),
                self.next_move,
            )) {
                assert(r.v@ =~= piece_moves(bv, self.next_move, x, y));
            }
        }
    }

    /// After the first (downward) pass of a dame: the vector holds exactly
    /// that pass's jumps, or its steps if it found no jump, and a held jump
    /// is recognizable from the first element.
    proof fn lemma_first_pass(&self, x: i32, y: i32, dy: i32, p: Player, v: Seq<(i32, i32)>)
        requires
            dy == 1i32 || dy == -1i32,
            v == if dir_jumps(self.board@, x, y, dy, p).len() > 0 {
                dir_jumps(self.board@, x, y, dy, p)
            } else {
                dir_steps(self.board@, x, y, dy)
            },
        ensures
            holds_jump(v, x) == (dir_jumps(self.board@, x, y, dy, p).len() > 0),
    {
        let j = dir_jumps(self.board@, x, y, dy, p);
        let s = dir_steps(self.board@, x, y, dy);
        if j.len() > 0 {
            assert(j.contains(j[0]));
            lemma_dir_jumps_elem(self.board@, x, y, dy, p, j[0]);
        } else if s.len() > 0 {
            assert(s.contains(s[0]));
            lemma_dir_steps_elem(self.board@, x, y, dy, s[0]);
        }
    }

    /// Composing the direction passes yields `piece_moves`: all jumps when
    /// any direction has one, otherwise all steps.
    proof fn lemma_two_passes(&self, x: i32, y: i32, c: Color)
        requires
            on_board(x as int, y as int),
            cell(self.board@, x as int, y as int) == c,
            color_of_player(c, self.next_move),
        ensures
            ({
                let bv = self.board@;
                let pm = piece_moves(bv, self.next_move, x, y);
                match c {
                    Color::WhiteNormal => pm == one_pass(bv, x, y, 1i32, Player::Black),
                    Color::BlackNormal => pm == one_pass(bv, x, y, -1i32, Player::White),
                    Color::WhiteDame => pm == two_passes(bv, x, y, Player::Black),
                    Color::BlackDame => pm == two_passes(bv, x, y, Player::White),
                    Color::Empty => true,
                }
            }),
    {
        let bv = self.board@;
        let pm = piece_moves(bv, self.next_move, x, y);
        match c {
            Color::WhiteNormal => {
                assert(pm =~= one_pass(bv, x, y, 1i32, Player::Black));
            },
            Color::BlackNormal => {
                assert(pm =~= one_pass(bv, x, y, -1i32, Player::White));
            },
            Color::WhiteDame => {
                self.lemma_dame_passes(x, y, Player::Black);
            },
            Color::BlackDame => {
                self.lemma_dame_passes(x, y, Player::White);
            },
            Color::Empty => {},
        }
    }

    /// The dame case of `lemma_two_passes`.
    proof fn lemma_dame_passes(&self, x: i32, y: i32, p: Player)
        requires
            on_board(x as int, y as int),
            color_of_player(cell(self.board@, x as int, y as int), self.next_move),
            cell(self.board@, x as int, y as int) == Color::WhiteDame || cell(
                self.board@,
                x as int,
                y as int,
            ) == Color::BlackDame,
            p == opponent(self.next_move),
            p == if cell(self.board@, x as int, y as int) == Color::WhiteDame {
                Player::Black
            } else {
                Player::White
            },
        ensures
            piece_moves(self.board@, self.next_move, x, y) == two_passes(self.board@, x, y, p),
    {
        let bv = self.board@;
        let pm = piece_moves(bv, self.next_move, x, y);
        let j1 = dir_jumps(bv, x, y, 1i32, p);
        let j2 = dir_jumps(bv, x, y, -1i32, p);
        let s1 = dir_steps(bv, x, y, 1i32);
        let s2 = dir_steps(bv, x, y, -1i32);
        if j1.len() > 0 {
            assert(pm =~= two_passes(bv, x, y, p));
        } else if j2.len() > 0 {
            assert(j1 + j2 =~= j2);
            assert(pm =~= two_passes(bv, x, y, p));
        } else {
            assert((j1 + j2).len() == 0);
            if holds_jump(s1, x) {
                assert(s1.contains(s1[0]));
                lemma_dir_steps_elem(bv, x, y, 1i32, s1[0]);
            }
            assert(pm =~= two_passes(bv, x, y, p));
        }
    }

    /// The legal destinations of the piece at `(x, y)`.
    pub fn moves_for(&self, x: i32, y: i32) -> (mf: MoveFor)
        requires
            self.mask_ok(),
        ensures
            mf.v@ == piece_moves(self.board@, self.next_move, x, y),
            all_on_board(mf.v@),
    {
        let mut mf = MoveFor::new();
        self.get_moves_for(x, y, &mut mf);
        mf
    }

    /// Whether the piece at `(x, y)` of the side to move can jump over an
    /// opponent piece.
    pub fn can_remove_piece(&self, x: i32, y: i32) -> (r: bool)
        requires
            self.mask_ok(),
            on_board(x as int, y as int),
        ensures
            r == can_jump(self.board@, self.next_move, x, y),
    {
        let ghost bv = self.board@;
        let ghost pm = piece_moves(bv, self.next_move, x, y);
        let mf = self.moves_for(x, y);
        let n = mf.v.len();
        let mut k: usize = 0;
        let mut found = false;
        while k < n
            invariant
                self.mask_ok(),
                on_board(x as int, y as int),
                bv == self.board@,
                pm == piece_moves(bv, self.next_move, x, y),
                mf.v@ == pm,
                all_on_board(mf.v@),
                n == mf.v@.len(),
                k <= n,
                found == exists|i: int|
                    0 <= i < k && ((#[trigger] pm[i]).0 - x == 2 || pm[i].0 - x == -2),
            decreases n - k,
        {
            let d = mf.v[k].0 - x;
            if d == 2 || d == -2 {
                found = true;
            }
            k += 1;
        }
        proof {
            if found {
                let i = choose|i: int| 0 <= i < n && ((#[trigger] pm[i]).0 - x == 2 || pm[i].0 - x
                    == -2);
                assert(pm.contains(pm[i]));
                lemma_move_props(bv, self.next_move, x, y, pm[i]);
            } else if can_jump(bv, self.next_move, x, y) {
                assert(pm.contains(pm[0]));
                lemma_move_props(bv, self.next_move, x, y, pm[0]);
            }
        }
        found
    }
}

/// Every coordinate of the sequence lies on the board.
pub open spec fn all_on_board(v: Seq<(i32, i32)>) -> bool {
    forall|k: int| 0 <= k < v.len() ==> on_board((#[trigger] v[k]).0 as int, v[k].1 as int)
}

/// The first entry records a jump from column `x`: the mark the move
/// generator uses to know an earlier pass already found a capture.
pub open spec fn holds_jump(v: Seq<(i32, i32)>, x: i32) -> bool {
    v.len() > 0 && (v[0].0 - x == 2 || v[0].0 - x == -2)
}

/// What one generator pass leaves for a man: its jumps, else its steps.
pub open spec fn one_pass(b: Seq<Color>, x: i32, y: i32, dy: i32, p: Player) -> Seq<(i32, i32)> {
    if dir_jumps(b, x, y, dy, p).len() > 0 {
        dir_jumps(b, x, y, dy, p)
    } else {
        dir_steps(b, x, y, dy)
    }
}

/// What two generator passes leave for a dame: all jumps of both directions
/// if there is any, else all steps of both directions.
pub open spec fn two_passes(b: Seq<Color>, x: i32, y: i32, p: Player) -> Seq<(i32, i32)> {
    let j = dir_jumps(b, x, y, 1i32, p) + dir_jumps(b, x, y, -1i32, p);
    if j.len() > 0 {
        j
    } else {
        dir_steps(b, x, y, 1i32) + dir_steps(b, x, y, -1i32)
    }
}

/// A collector for one piece's legal destinations.
pub struct MoveFor {
    pub v: Vec<(i32, i32)>,
}

impl MoveFor {
    pub fn new() -> (r: MoveFor)
        ensures
            r.v@ == Seq::<(i32, i32)>::empty(),
    {
        MoveFor { v: Vec::new() }
    }
}

/// The predicate "this position holds a piece of `t` that can capture".
pub open spec fn jumper(b: Seq<Color>, t: Player) -> spec_fn((i32, i32)) -> bool {
    |q: (i32, i32)| can_jump(b, t, q.0, q.1)
}

/// The predicate "this position holds a piece of `t` with a legal move".
pub open spec fn mover(b: Seq<Color>, t: Player) -> spec_fn((i32, i32)) -> bool {
    |q: (i32, i32)| piece_moves(b, t, q.0, q.1).len() > 0
}

/// The positions of `ps` whose piece belongs to `t` and can capture.
pub open spec fn elig_jumpers(b: Seq<Color>, t: Player, ps: Seq<(i32, i32)>) -> Seq<(i32, i32)> {
    ps.filter(jumper(b, t))
}

/// The positions of `ps` whose piece belongs to `t` and has a legal move.
pub open spec fn elig_movers(b: Seq<Color>, t: Player, ps: Seq<(i32, i32)>) -> Seq<(i32, i32)> {
    ps.filter(mover(b, t))
}

/// The eligible movers, under the global mandatory-capture rule: if any piece
/// of the side to move can capture, exactly the capturing pieces are
/// eligible; otherwise every piece with a legal move is.
pub open spec fn eligible(b: Seq<Color>, t: Player, ps: Seq<(i32, i32)>) -> Seq<(i32, i32)> {
    if elig_jumpers(b, t, ps).len() > 0 {
        elig_jumpers(b, t, ps)
    } else {
        elig_movers(b, t, ps)
    }
}

proof fn lemma_filter_one<T>(e: T, pred: spec_fn(T) -> bool)
    ensures
        seq![e].filter(pred) == if pred(e) {
            seq![e]
        } else {
            Seq::<T>::empty()
        },
{
    reveal(Seq::filter);
    let emp = Seq::<T>::empty();
    assert(emp.filter(pred) == emp);
    assert(seq![e].drop_last() =~= emp);
    assert(seq![e].last() == e);
    if pred(e) {
        assert(seq![e].filter(pred) =~= seq![e]);
    } else {
        assert(seq![e].filter(pred) =~= Seq::<T>::empty());
    }
}

/// Filtering one more element of a prefix appends that element when it
/// matches.
proof fn lemma_filter_take_step<T>(s: Seq<T>, k: int, pred: spec_fn(T) -> bool)
    requires
        0 <= k < s.len(),
    ensures
        s.take(k + 1).filter(pred) == s.take(k).filter(pred) + (if pred(s[k]) {
            seq![s[k]]
        } else {
            Seq::<T>::empty()
        }),
{
    assert(s.take(k + 1) =~= s.take(k) + seq![s[k]]);
    Seq::<T>::filter_distributes_over_add(s.take(k), seq![s[k]], pred);
    lemma_filter_one(s[k], pred);
}

/// A filtered sequence holds exactly the matching elements of the original.
proof fn lemma_filter_membership<T>(s: Seq<T>, pred: spec_fn(T) -> bool)
    ensures
        forall|m: T| #[trigger] s.filter(pred).contains(m) <==> (s.contains(m) && pred(m)),
        s.filter(pred).len() <= s.len(),
{
    broadcast use vstd::seq_lib::group_filter_ensures;

    assert forall|m: T| #[trigger] s.filter(pred).contains(m) implies (s.contains(m) && pred(
        m,
    )) by {
        Seq::<T>::lemma_filter_contains_rev(s, pred, m);
        let j = choose|j: int| 0 <= j < s.filter(pred).len() && s.filter(pred)[j] == m;
        assert(pred(s.filter(pred)[j]));
    }
    assert forall|m: T| (s.contains(m) && pred(m)) implies #[trigger] s.filter(pred).contains(
        m,
    ) by {
        let i = choose|i: int| 0 <= i < s.len() && s[i] == m;
        assert(s.filter(pred).contains(s[i]));
    }
}

/// Membership in the eligibility sets, and that every eligible piece has a
/// legal destination.
pub proof fn lemma_eligible_membership(b: Seq<Color>, t: Player, ps: Seq<(i32, i32)>)
    ensures
        forall|m: (i32, i32)| #[trigger]
            elig_jumpers(b, t, ps).contains(m) <==> (ps.contains(m) && can_jump(b, t, m.0, m.1)),
        forall|m: (i32, i32)| #[trigger]
            elig_movers(b, t, ps).contains(m) <==> (ps.contains(m) && piece_moves(
                b,
                t,
                m.0,
                m.1,
            ).len() > 0),
        forall|m: (i32, i32)| #[trigger]
            eligible(b, t, ps).contains(m) ==> ps.contains(m) && piece_moves(b, t, m.0, m.1).len()
                > 0 && color_of_player(cell(b, m.0 as int, m.1 as int), t) && on_board(
                m.0 as int,
                m.1 as int,
            ),
{
    lemma_filter_membership(ps, jumper(b, t));
    lemma_filter_membership(ps, mover(b, t));
}

/// The standard starting layout: twelve men per side on the dark squares,
/// White on rows 0..3, Black on rows 5..8.
pub open spec fn start_cell(x: int, y: int) -> Color {
    if y < 3 && (x + y) % 2 == 0 {
        Color::WhiteNormal
    } else if y >= 5 && (x + y) % 2 == 0 {
        Color::BlackNormal
    } else {
        Color::Empty
    }
}

proof fn lemma_sq_inverse(x: int, y: int)
    requires
        on_board(x, y),
    ensures
        sq(x, y) % 8 == x,
        sq(x, y) / 8 == y,
        0 <= sq(x, y) < 64,
{
    assert((y * 8 + x) % 8 == x && (y * 8 + x) / 8 == y) by (nonlinear_arith)
        requires
            0 <= x < 8,
            0 <= y < 8,
    ;
}

impl Board {
    /// The cached eligible-mover list is right: either it was recomputed in
    /// full for the side to move, or the side is mid-capture-chain and the
    /// list holds exactly the piece that just captured and can capture again.
    pub open spec fn elig_ok(self) -> bool {
        ||| self.valid_pieces_to_move@ == eligible(self.board@, self.next_move, self.positions@)
        ||| (self.valid_pieces_to_move@.len() == 1 && can_jump(
            self.board@,
            self.next_move,
            self.valid_pieces_to_move@[0].0,
            self.valid_pieces_to_move@[0].1,
        ))
    }

    /// Well-formedness of a reachable board.
    pub open spec fn wf(self) -> bool {
        self.cells_ok() && self.elig_ok()
    }

    /// While the game is not decided, somebody can move. Boards made by `new`
    /// have it; `mv` preserves it; boards built from arbitrary cells may lack
    /// it (a stalemate start), and the search refuses those.
    pub open spec fn game_ok(self) -> bool {
        self.winner == Player::Nobody ==> self.valid_pieces_to_move@.len() > 0
    }

    fn create_positions(v: &Vec<Color>) -> (r: Vec<(i32, i32)>)
        requires
            v@.len() == 64,
        ensures
            r@.len() <= 64,
            all_on_board(r@),
            forall|k: int|
                0 <= k < r@.len() ==> cell(v@, (#[trigger] r@[k]).0 as int, r@[k].1 as int)
                    != Color::Empty,
            forall|x: i32, y: i32|
                on_board(x as int, y as int) && cell(v@, x as int, y as int) != Color::Empty
                    ==> #[trigger] r@.contains((x, y)),
            r@.no_duplicates(),
    {
        let mut r: Vec<(i32, i32)> = Vec::new();
        let mut p: usize = 0;
        while p < 64
            invariant
                v@.len() == 64,
                p <= 64,
                r@.len() <= p,
                all_on_board(r@),
                forall|k: int|
                    0 <= k < r@.len() ==> cell(v@, (#[trigger] r@[k]).0 as int, r@[k].1 as int)
                        != Color::Empty,
                forall|i: int, j: int|
                    0 <= i < j < r@.len() ==> sq(r@[i].0 as int, r@[i].1 as int) < sq(
                        r@[j].0 as int,
                        r@[j].1 as int,
                    ),
                forall|k: int|
                    0 <= k < r@.len() ==> sq((#[trigger] r@[k]).0 as int, r@[k].1 as int) < p,
                forall|x: i32, y: i32|
                    on_board(x as int, y as int) && cell(v@, x as int, y as int) != Color::Empty
                        && sq(x as int, y as int) < p ==> #[trigger] r@.contains((x, y)),
            decreases 64 - p,
        {
            if !(v[p] == Color::Empty) {
                let x = (p as i32) % 8;
                let y = (p as i32) / 8;
                proof {
                    vstd::arithmetic::div_mod::lemma_fundamental_div_mod(p as int, 8);
                    assert(sq(x as int, y as int) == p as int);
                }
                let ghost r0 = r@;
                r.push((x, y));
                proof {
                    assert forall|qx: i32, qy: i32|
                        on_board(qx as int, qy as int) && cell(v@, qx as int, qy as int)
                            != Color::Empty && sq(qx as int, qy as int) < p + 1 implies #[trigger] r@.contains(
                        (qx, qy),
                    ) by {
                        if sq(qx as int, qy as int) < p as int {
                            assert(r0.contains((qx, qy)));
                            let i = choose|i: int| 0 <= i < r0.len() && r0[i] == (qx, qy);
                            assert(r@[i] == (qx, qy));
                        } else {
                            lemma_sq_inverse(qx as int, qy as int);
                            lemma_sq_inverse(x as int, y as int);
                            assert(qx == x && qy == y);
                            assert(r@[r@.len() - 1] == (qx, qy));
                        }
                    }
                }
            } else {
                proof {
                    assert forall|qx: i32, qy: i32|
                        on_board(qx as int, qy as int) && cell(v@, qx as int, qy as int)
                            != Color::Empty && sq(qx as int, qy as int) < p + 1 implies #[trigger] r@.contains(
                        (qx, qy),
                    ) by {
                        if sq(qx as int, qy as int) == p as int {
                            assert(cell(v@, qx as int, qy as int) == v@[p as int]);
                        }
                    }
                }
            }
            p += 1;
        }
        proof {
            assert forall|i: int, j: int| 0 <= i < j < r@.len() implies r@[i] != r@[j] by {
                assert(sq(r@[i].0 as int, r@[i].1 as int) < sq(r@[j].0 as int, r@[j].1 as int));
            }
        }
        r
    }

    fn create_bitmask(&mut self)
        requires
            old(self).board@.len() == 64,
        ensures
            final(self).mask_ok(),
            *final(self) == (Board { board_bitmask: final(self).board_bitmask, ..*old(self) }),
    {
        self.board_bitmask = 0;
        proof {
            assert forall|j: u64| j < 64 implies !bit_set(0u64, j) by {
                lemma_bit_zero(j);
            }
        }
        let mut p: usize = 0;
        while p < 64
            invariant
                self.board@.len() == 64,
                p <= 64,
                *self == (Board { board_bitmask: self.board_bitmask, ..*old(self) }),
                forall|j: u64|
                    j < 64 ==> (#[trigger] bit_set(self.board_bitmask, j) <==> (j < p
                        && self.board@[j as int] != Color::Empty)),
            decreases 64 - p,
        {
            if !(self.board[p] == Color::Empty) {
                self.set_bit(p);
            }
            p += 1;
        }
    }

    /// Drop the entry `(x, y)` from the dense position list by swapping the
    /// last entry into its place.
    pub fn remove_position(&mut self, x: i32, y: i32)
        requires
            old(self).positions@.contains((x, y)),
            old(self).positions@.no_duplicates(),
        ensures
            final(self).positions@.no_duplicates(),
            final(self).positions@.len() == old(self).positions@.len() - 1,
            forall|m: (i32, i32)| #[trigger]
                final(self).positions@.contains(m) <==> (old(self).positions@.contains(m) && m
                    != (x, y)),
            *final(self) == (Board { positions: final(self).positions, ..*old(self) }),
    {
        let ghost ps = self.positions@;
        let n = self.positions.len();
        let mut k: usize = 0;
        while k < n && !(self.positions[k].0 == x && self.positions[k].1 == y)
            invariant
                ps == self.positions@,
                n == ps.len(),
                k <= n,
                ps.contains((x, y)),
                forall|i: int| 0 <= i < k ==> ps[i] != (x, y),
            decreases n - k,
        {
            k += 1;
        }
        proof {
            if k == n {
                let w = choose|w: int| 0 <= w < ps.len() && ps[w] == (x, y);
                assert(false);
            }
            assert(ps[k as int] == (x, y));
        }
        self.positions.swap_remove(k);
        proof {
            let qs = self.positions@;
            assert(qs =~= ps.update(k as int, ps.last()).drop_last());
            assert forall|i: int| 0 <= i < qs.len() implies qs[i] == (if i == k as int {
                ps[ps.len() - 1]
            } else {
                ps[i]
            }) by {}
            assert forall|i: int, j: int| 0 <= i < j < qs.len() implies qs[i] != qs[j] by {
                if i == k as int {
                    assert(qs[i] == ps[ps.len() - 1] && qs[j] == ps[j]);
                } else if j == k as int {
                    assert(qs[j] == ps[ps.len() - 1] && qs[i] == ps[i]);
                }
            }
            assert forall|m: (i32, i32)| #[trigger]
                qs.contains(m) implies (ps.contains(m) && m != (x, y)) by {
                let i = choose|i: int| 0 <= i < qs.len() && qs[i] == m;
                if i == k as int {
                    assert(ps[ps.len() - 1] == m);
                } else {
                    assert(ps[i] == m);
                }
            }
            assert forall|m: (i32, i32)| (ps.contains(m) && m != (x, y)) implies #[trigger]
                qs.contains(m) by {
                let i = choose|i: int| 0 <= i < ps.len() && ps[i] == m;
                if i == ps.len() - 1 {
                    assert(k as int != i);
                    assert(qs[k as int] == m);
                } else if i != k as int {
                    assert(qs[i] == m);
                }
            }
        }
    }

    /// Recompute the eligible movers for the side to move: the pieces that
    /// can capture, or, when none can, the pieces that can move at all.
    fn update_valid_pieces_to_move(&mut self)
        requires
            old(self).mask_ok(),
            old(self).positions_ok(),
        ensures
            final(self).valid_pieces_to_move@ == eligible(
                old(self).board@,
                old(self).next_move,
                old(self).positions@,
            ),
            *final(self) == (Board {
                valid_pieces_to_move: final(self).valid_pieces_to_move,
                ..*old(self)
            }),
    {
        let ghost bv = self.board@;
        let ghost t = self.next_move;
        let ghost ps = self.positions@;
        self.valid_pieces_to_move.clear();
        let n = self.positions.len();
        let mut k: usize = 0;
        while k < n
            invariant
                self.mask_ok(),
                self.positions_ok(),
                bv == self.board@,
                t == self.next_move,
                ps == self.positions@,
                n == ps.len(),
                k <= n,
                *self == (Board {
                    valid_pieces_to_move: self.valid_pieces_to_move,
                    ..*old(self)
                }),
                self.valid_pieces_to_move@ == ps.take(k as int).filter(jumper(bv, t)),
            decreases n - k,
        {
            let q = self.positions[k];
            proof {
                lemma_filter_take_step(ps, k as int, jumper(bv, t));
            }
            if self.can_remove_piece(q.0, q.1) {
                self.valid_pieces_to_move.push(q);
                proof {
                    assert(self.valid_pieces_to_move@ =~= ps.take(k as int + 1).filter(
                        jumper(bv, t),
                    ));
                }
            } else {
                proof {
                    assert(self.valid_pieces_to_move@ =~= ps.take(k as int + 1).filter(
                        jumper(bv, t),
                    ));
                }
            }
            k += 1;
        }
        proof {
            assert(ps.take(n as int) =~= ps);
        }

        if self.valid_pieces_to_move.len() == 0 {
            let mut k2: usize = 0;
            while k2 < n
                invariant
                    self.mask_ok(),
                    self.positions_ok(),
                    bv == self.board@,
                    t == self.next_move,
                    ps == self.positions@,
                    n == ps.len(),
                    k2 <= n,
                    elig_jumpers(bv, t, ps).len() == 0,
                    *self == (Board {
                        valid_pieces_to_move: self.valid_pieces_to_move,
                        ..*old(self)
                    }),
                    self.valid_pieces_to_move@ == ps.take(k2 as int).filter(mover(bv, t)),
                decreases n - k2,
            {
                let q = self.positions[k2];
                proof {
                    lemma_filter_take_step(ps, k2 as int, mover(bv, t));
                }
                let mf = self.moves_for(q.0, q.1);
                if mf.v.len() > 0 {
                    self.valid_pieces_to_move.push(q);
                    proof {
                        assert(self.valid_pieces_to_move@ =~= ps.take(k2 as int + 1).filter(
                            mover(bv, t),
                        ));
                    }
                } else {
                    proof {
                        assert(self.valid_pieces_to_move@ =~= ps.take(k2 as int + 1).filter(
                            mover(bv, t),
                        ));
                    }
                }
                k2 += 1;
            }
            proof {
                assert(ps.take(n as int) =~= ps);
            }
        }
    }

    /// A board rebuilt from decoded plain state: the cells and the scalar
    /// fields are adopted as given, while the occupancy mask, the dense
    /// position list and the eligible movers are derived afresh from the
    /// cells, so the result is well formed whatever the encoding claimed.
    pub fn rebuild(
        v: Vec<Color>,
        next_move: Player,
        winner: Player,
        last_moves: Vec<(i32, i32, i32, i32)>,
        move_no: i32,
    ) -> (r: Board)
        requires
            v@.len() == 64,
            next_move != Player::Nobody,
        ensures
            r.wf(),
            r.board@ == v@,
            r.next_move == next_move,
            r.winner == winner,
            r.last_moves@ == last_moves@,
            r.move_no == move_no,
            r.valid_pieces_to_move@ == eligible(v@, next_move, r.positions@),
    {
        let positions = Board::create_positions(&v);
        let mut r = Board {
            board_bitmask: 0,
            positions,
            board: v,
            next_move,
            valid_pieces_to_move: Vec::new(),
            winner,
            last_moves,
            move_no,
        };
        r.create_bitmask();
        r.update_valid_pieces_to_move();
        r
    }

    /// A board with the given 64 cells, Black to move, no winner, an empty
    /// move log, and the occupancy structures and eligible movers derived
    /// from the cells.
    pub fn from(v: Vec<Color>) -> (r: Board)
        requires
            v@.len() == 64,
        ensures
            r.wf(),
            r.board@ == v@,
            r.next_move == Player::Black,
            r.winner == Player::Nobody,
            r.last_moves@.len() == 0,
            r.move_no == 0,
            r.valid_pieces_to_move@ == eligible(v@, Player::Black, r.positions@),
    {
        Board::rebuild(v, Player::Black, Player::Nobody, Vec::new(), 0)
    }

    /// A board in the standard starting position.
    pub fn new() -> (r: Board)
        ensures
            r.wf(),
            r.board@.len() == 64,
            forall|x: int, y: int| on_board(x, y) ==> cell(r.board@, x, y) == start_cell(x, y),
            r.next_move == Player::Black,
            r.winner == Player::Nobody,
            r.last_moves@.len() == 0,
            r.move_no == 0,
            r.valid_pieces_to_move@ == eligible(r.board@, Player::Black, r.positions@),
    {
        let mut brd: Vec<Color> = Vec::new();
        let mut p: usize = 0;
        while p < 64
            invariant
                p <= 64,
                brd@.len() == p,
                forall|i: int|
                    0 <= i < p ==> brd@[i] == start_cell(i % 8, i / 8),
            decreases 64 - p,
        {
            let x = p % 8;
            let y = p / 8;
            let c = if y < 3 && (x + y) % 2 == 0 {
                Color::WhiteNormal
            } else if y >= 5 && (x + y) % 2 == 0 {
                Color::BlackNormal
            } else {
                Color::Empty
            };
            brd.push(c);
            p += 1;
        }
        let r = Board::from(brd);
        proof {
            assert forall|x: int, y: int| on_board(x, y) implies cell(r.board@, x, y)
                == start_cell(x, y) by {
                lemma_sq_inverse(x, y);
            }
        }
        r
    }
}

/// Two boards hold the same state, field for field.
pub open spec fn same_state(a: Board, b: Board) -> bool {
    &&& a.board_bitmask == b.board_bitmask
    &&& a.positions@ == b.positions@
    &&& a.board@ == b.board@
    &&& a.next_move == b.next_move
    &&& a.valid_pieces_to_move@ == b.valid_pieces_to_move@
    &&& a.winner == b.winner
    &&& a.last_moves@ == b.last_moves@
    &&& a.move_no == b.move_no
}

impl Clone for Board {
    /// A deep copy whose state equals the original's.
    fn clone(&self) -> (r: Board)
        ensures
            same_state(*self, r),
    {
        Board {
            board_bitmask: self.board_bitmask,
            positions: copy_vec(&self.positions),
            board: copy_vec(&self.board),
            next_move: self.next_move,
            valid_pieces_to_move: copy_vec(&self.valid_pieces_to_move),
            winner: self.winner,
            last_moves: copy_vec(&self.last_moves),
            move_no: self.move_no,
        }
    }
}

/// The non-promoted piece color of a player.
pub open spec fn normal_color(p: Player) -> Color {
    match p {
        Player::White => Color::WhiteNormal,
        Player::Black => Color::BlackNormal,
        Player::Nobody => Color::Empty,
    }
}

/// The promoted piece color of a player.
pub open spec fn dame_color(p: Player) -> Color {
    match p {
        Player::White => Color::WhiteDame,
        Player::Black => Color::BlackDame,
        Player::Nobody => Color::Empty,
    }
}

/// The predicate "this position's cell holds exactly color `c`".
pub open spec fn color_pred(b: Seq<Color>, c: Color) -> spec_fn((i32, i32)) -> bool {
    |q: (i32, i32)| cell(b, q.0 as int, q.1 as int) == c
}

/// How many of the positions `ps` hold color `c`.
pub open spec fn count_color(b: Seq<Color>, ps: Seq<(i32, i32)>, c: Color) -> int {
    ps.filter(color_pred(b, c)).len() as int
}

/// The predicate "this position holds a piece of `p`".
pub open spec fn owner_pred(b: Seq<Color>, p: Player) -> spec_fn((i32, i32)) -> bool {
    |q: (i32, i32)| owned_by(b, q.0 as int, q.1 as int, p)
}

/// The destination tuple of a move of the piece at `src`.
pub open spec fn tag_src(src: (i32, i32)) -> spec_fn((i32, i32)) -> (i32, i32, i32, i32) {
    |m: (i32, i32)| (src.0, src.1, m.0, m.1)
}

/// A destination as a `Point`.
pub open spec fn to_point() -> spec_fn((i32, i32)) -> Point {
    |m: (i32, i32)| Point { x: m.0, y: m.1 }
}

/// The union, over the pieces of `elig` in order, of each piece's legal
/// destinations, as full move tuples.
pub open spec fn moves_from(b: Seq<Color>, t: Player, elig: Seq<(i32, i32)>) -> Seq<
    (i32, i32, i32, i32),
>
    decreases elig.len(),
{
    if elig.len() == 0 {
        Seq::empty()
    } else {
        piece_moves(b, t, elig[0].0, elig[0].1).map_values(tag_src(elig[0])) + moves_from(
            b,
            t,
            elig.drop_first(),
        )
    }
}

/// A full move tuple is offered exactly when its source is an eligible piece
/// and its destination one of that piece's legal destinations.
pub proof fn lemma_moves_from_membership(b: Seq<Color>, t: Player, elig: Seq<(i32, i32)>)
    ensures
        forall|mv: (i32, i32, i32, i32)| #[trigger]
            moves_from(b, t, elig).contains(mv) <==> (elig.contains((mv.0, mv.1)) && piece_moves(
                b,
                t,
                mv.0,
                mv.1,
            ).contains((mv.2, mv.3))),
    decreases elig.len(),
{
    if elig.len() > 0 {
        lemma_moves_from_membership(b, t, elig.drop_first());
        let e0 = elig[0];
        let head = piece_moves(b, t, e0.0, e0.1).map_values(tag_src(e0));
        let tail = moves_from(b, t, elig.drop_first());
        assert forall|mv: (i32, i32, i32, i32)| #[trigger]
            moves_from(b, t, elig).contains(mv) implies (elig.contains((mv.0, mv.1))
            && piece_moves(b, t, mv.0, mv.1).contains((mv.2, mv.3))) by {
            lemma_add_contains(head, tail, mv);
            if head.contains(mv) {
                let j = choose|j: int| 0 <= j < head.len() && head[j] == mv;
                assert(mv == tag_src(e0)(piece_moves(b, t, e0.0, e0.1)[j]));
                assert(elig[0] == (mv.0, mv.1));
                assert(piece_moves(b, t, mv.0, mv.1)[j] == (mv.2, mv.3));
            } else {
                let k = choose|k: int|
                    0 <= k < elig.drop_first().len() && elig.drop_first()[k] == (mv.0, mv.1);
                assert(elig[k + 1] == (mv.0, mv.1));
            }
        }
        assert forall|mv: (i32, i32, i32, i32)|
            (elig.contains((mv.0, mv.1)) && piece_moves(b, t, mv.0, mv.1).contains(
                (mv.2, mv.3),
            )) implies #[trigger] moves_from(b, t, elig).contains(mv) by {
            let k = choose|k: int| 0 <= k < elig.len() && elig[k] == (mv.0, mv.1);
            if k == 0 {
                let j = choose|j: int|
                    0 <= j < piece_moves(b, t, mv.0, mv.1).len() && piece_moves(b, t, mv.0, mv.1)[j]
                        == (mv.2, mv.3);
                assert(head[j] == mv);
                assert((head + tail)[j] == mv);
            } else {
                assert(elig.drop_first()[k - 1] == (mv.0, mv.1));
                assert(elig.drop_first().contains((mv.0, mv.1)));
                assert(tail.contains(mv));
                let j = choose|j: int| 0 <= j < tail.len() && tail[j] == mv;
                assert((head + tail)[head.len() + j] == mv);
            }
        }
    }
}

impl Board {
    /// The full move list of the side to move.
    pub open spec fn spec_valid_moves(self) -> Seq<(i32, i32, i32, i32)> {
        moves_from(self.board@, self.next_move, self.valid_pieces_to_move@)
    }

    pub fn player(&self) -> (r: Player)
        ensures
            r == self.next_move,
    {
        self.next_move
    }

    pub fn winner(&self) -> (r: Player)
        ensures
            r == self.winner,
    {
        self.winner
    }

    pub fn finished(&self) -> (r: bool)
        ensures
            r == (self.winner != Player::Nobody),
    {
        !(self.winner == Player::Nobody)
    }

    pub fn movable_pieces(&self) -> (r: Vec<(i32, i32)>)
        ensures
            r@ == self.valid_pieces_to_move@,
    {
        copy_vec(&self.valid_pieces_to_move)
    }

    pub fn get_last_moves(&self) -> (r: Vec<(i32, i32, i32, i32)>)
        ensures
            r@ == self.last_moves@,
    {
        copy_vec(&self.last_moves)
    }

    pub fn clear_last_moves(&mut self)
        ensures
            final(self).last_moves@.len() == 0,
            *final(self) == (Board { last_moves: final(self).last_moves, ..*old(self) }),
    {
        self.last_moves.clear()
    }

    /// Whether the piece at `(x, y)` is among the eligible movers.
    pub fn moving_piece_is_allowed(&self, x: i32, y: i32) -> (r: bool)
        ensures
            r == self.valid_pieces_to_move@.contains((x, y)),
    {
        let ghost ps = self.valid_pieces_to_move@;
        let n = self.valid_pieces_to_move.len();
        let mut k: usize = 0;
        while k < n && !(self.valid_pieces_to_move[k].0 == x && self.valid_pieces_to_move[k].1
            == y)
            invariant
                ps == self.valid_pieces_to_move@,
                n == ps.len(),
                k <= n,
                forall|i: int| 0 <= i < k ==> ps[i] != (x, y),
            decreases n - k,
        {
            k += 1;
        }
        proof {
            if k < n {
                assert(ps[k as int] == (x, y));
            } else if ps.contains((x, y)) {
                let w = choose|w: int| 0 <= w < ps.len() && ps[w] == (x, y);
                assert(false);
            }
        }
        k < n
    }

    /// The legal destinations of the piece at `(x, y)`, or nothing when that
    /// piece is not eligible to move.
    pub fn mv(&self, x: i32, y: i32) -> (r: Option<Vec<Point>>)
        requires
            self.mask_ok(),
        ensures
            match r {
                Some(v) => self.valid_pieces_to_move@.contains((x, y)) && v@ == piece_moves(
                    self.board@,
                    self.next_move,
                    x,
                    y,
                ).map_values(to_point()),
                None => !self.valid_pieces_to_move@.contains((x, y)),
            },
    {
        if self.moving_piece_is_allowed(x, y) {
            let ghost pm = piece_moves(self.board@, self.next_move, x, y);
            let mf = self.moves_for(x, y);
            let n = mf.v.len();
            let mut v: Vec<Point> = Vec::new();
            let mut k: usize = 0;
            while k < n
                invariant
                    mf.v@ == pm,
                    n == pm.len(),
                    k <= n,
                    v@ == pm.take(k as int).map_values(to_point()),
                decreases n - k,
            {
                let m = mf.v[k];
                v.push(Point::new(m.0, m.1));
                proof {
                    assert(v@ =~= pm.take(k as int + 1).map_values(to_point()));
                }
                k += 1;
            }
            proof {
                assert(pm.take(n as int) =~= pm);
            }
            Some(v)
        } else {
            None
        }
    }

    /// How many non-promoted pieces player `p` has.
    pub fn count_normal(&self, p: Player) -> (r: i32)
        requires
            self.board@.len() == 64,
            self.positions_ok(),
            p != Player::Nobody,
        ensures
            r == count_color(self.board@, self.positions@, normal_color(p)),
            0 <= r <= 64,
    {
        let c = match p {
            Player::White => Color::WhiteNormal,
            _ => Color::BlackNormal,
        };
        self.count_of_color(c, p, true)
    }

    /// How many promoted pieces player `p` has.
    pub fn count_dame(&self, p: Player) -> (r: i32)
        requires
            self.board@.len() == 64,
            self.positions_ok(),
            p != Player::Nobody,
        ensures
            r == count_color(self.board@, self.positions@, dame_color(p)),
            0 <= r <= 64,
    {
        let c = match p {
            Player::White => Color::WhiteDame,
            _ => Color::BlackDame,
        };
        self.count_of_color(c, p, false)
    }

    /// Count the positions holding exactly color `c` (the `normal` flag picks
    /// which of `p`'s two colors `c` is).
    fn count_of_color(&self, c: Color, p: Player, normal: bool) -> (r: i32)
        requires
            self.board@.len() == 64,
            self.positions_ok(),
            p != Player::Nobody,
            c == if normal {
                normal_color(p)
            } else {
                dame_color(p)
            },
        ensures
            r == count_color(self.board@, self.positions@, c),
            0 <= r <= 64,
    {
        let ghost bv = self.board@;
        let ghost ps = self.positions@;
        let n = self.positions.len();
        let mut cnt: i32 = 0;
        let mut k: usize = 0;
        while k < n
            invariant
                self.board@ == bv,
                self.positions@ == ps,
                self.board@.len() == 64,
                self.positions_ok(),
                p != Player::Nobody,
                c == if normal {
                    normal_color(p)
                } else {
                    dame_color(p)
                },
                n == ps.len(),
                k <= n,
                0 <= cnt <= k,
                cnt == ps.take(k as int).filter(color_pred(bv, c)).len(),
            decreases n - k,
        {
            let q = self.positions[k];
            proof {
                lemma_filter_take_step(ps, k as int, color_pred(bv, c));
            }
            let hit = if normal {
                self.is_player(q.0, q.1, p) && self.is_normal(q.0, q.1)
            } else {
                self.is_player(q.0, q.1, p) && self.is_dame(q.0, q.1)
            };
            if hit {
                cnt += 1;
            }
            proof {
                assert(hit == color_pred(bv, c)(q));
            }
            k += 1;
        }
        proof {
            assert(ps.take(n as int) =~= ps);
        }
        cnt
    }

    /// The coordinates of player `p`'s pieces.
    pub fn positions(&self, p: Player) -> (r: Vec<(i32, i32)>)
        requires
            self.board@.len() == 64,
            self.positions_ok(),
            p != Player::Nobody,
        ensures
            r@ == self.positions@.filter(owner_pred(self.board@, p)),
    {
        let ghost bv = self.board@;
        let ghost ps = self.positions@;
        let n = self.positions.len();
        let mut r: Vec<(i32, i32)> = Vec::new();
        let mut k: usize = 0;
        while k < n
            invariant
                self.board@ == bv,
                self.positions@ == ps,
                self.board@.len() == 64,
                self.positions_ok(),
                p != Player::Nobody,
                n == ps.len(),
                k <= n,
                r@ == ps.take(k as int).filter(owner_pred(bv, p)),
            decreases n - k,
        {
            let q = self.positions[k];
            proof {
                lemma_filter_take_step(ps, k as int, owner_pred(bv, p));
            }
            if self.is_player(q.0, q.1, p) {
                r.push(q);
                proof {
                    assert(r@ =~= ps.take(k as int + 1).filter(owner_pred(bv, p)));
                }
            } else {
                proof {
                    assert(r@ =~= ps.take(k as int + 1).filter(owner_pred(bv, p)));
                }
            }
            k += 1;
        }
        proof {
            assert(ps.take(n as int) =~= ps);
        }
        r
    }

    /// All legal moves of the side to move: the union over the eligible
    /// pieces of that piece's destinations.
    pub fn valid_moves(&self) -> (v: Vec<(i32, i32, i32, i32)>)
        requires
            self.mask_ok(),
        ensures
            v@ == self.spec_valid_moves(),
    {
        let ghost bv = self.board@;
        let ghost t = self.next_move;
        let ghost el = self.valid_pieces_to_move@;
        let mut v: Vec<(i32, i32, i32, i32)> = Vec::new();
        let pieces = self.movable_pieces();
        let n = pieces.len();
        let mut i: usize = 0;
        proof {
            assert(el.skip(0) =~= el);
            assert(v@ + moves_from(bv, t, el) =~= moves_from(bv, t, el));
        }
        while i < n
            invariant
                self.board@ == bv,
                self.next_move == t,
                self.valid_pieces_to_move@ == el,
                self.mask_ok(),
                pieces@ == el,
                n == el.len(),
                i <= n,
                v@ + moves_from(bv, t, el.skip(i as int)) == moves_from(bv, t, el),
            decreases n - i,
        {
            let src = pieces[i];
            let ghost pm = piece_moves(bv, t, src.0, src.1);
            let ghost vpre = v@;
            let mf = self.moves_for(src.0, src.1);
            let m = mf.v.len();
            let mut k: usize = 0;
            while k < m
                invariant
                    mf.v@ == pm,
                    m == pm.len(),
                    k <= m,
                    src == el[i as int],
                    v@ == vpre + pm.take(k as int).map_values(tag_src(src)),
                decreases m - k,
            {
                let d = mf.v[k];
                v.push((src.0, src.1, d.0, d.1));
                proof {
                    assert(v@ =~= vpre + pm.take(k as int + 1).map_values(tag_src(src)));
                }
                k += 1;
            }
            proof {
                assert(pm.take(m as int) =~= pm);
                let rest = el.skip(i as int);
                assert(rest.drop_first() =~= el.skip(i as int + 1));
                assert(rest[0] == el[i as int]);
                assert(moves_from(bv, t, rest) == pm.map_values(tag_src(src)) + moves_from(
                    bv,
                    t,
                    el.skip(i as int + 1),
                ));
                assert((vpre + pm.map_values(tag_src(src))) + moves_from(bv, t, el.skip(i as int + 1))
                    =~= vpre + (pm.map_values(tag_src(src)) + moves_from(
                    bv,
                    t,
                    el.skip(i as int + 1),
                )));
            }
            i += 1;
        }
        proof {
            assert(el.skip(n as int) =~= Seq::<(i32, i32)>::empty());
            assert(v@ + moves_from(bv, t, el.skip(n as int)) =~= v@);
        }
        v
    }
}

/// The request to move the piece at `(x, y)` to `(dx, dy)` is legal on `pre`:
/// the game is not over, the piece is eligible, and the destination is one of
/// its legal destinations.
pub open spec fn legal_move(pre: Board, x: i32, y: i32, dx: i32, dy: i32) -> bool {
    &&& pre.winner == Player::Nobody
    &&& pre.valid_pieces_to_move@.contains((x, y))
    &&& piece_moves(pre.board@, pre.next_move, x, y).contains((dx, dy))
}

/// The cells after relocating the piece and removing a jumped-over piece,
/// before any promotion.
pub open spec fn board_relocated(b: Seq<Color>, x: i32, y: i32, dx: i32, dy: i32) -> Seq<Color> {
    let moved = b.update(sq(dx as int, dy as int), cell(b, x as int, y as int)).update(
        sq(x as int, y as int),
        Color::Empty,
    );
    if dx - x == 2 || dx - x == -2 {
        moved.update(sq((x + dx) / 2, (y + dy) / 2), Color::Empty)
    } else {
        moved
    }
}

/// Promotion: after `mover` lands a piece on its far row, that square holds a
/// dame.
pub open spec fn board_promoted(b: Seq<Color>, dx: i32, dy: i32, mover: Player) -> Seq<Color> {
    if dy == 0i32 && mover == Player::Black {
        b.update(sq(dx as int, 0), Color::BlackDame)
    } else if dy == 7i32 && mover == Player::White {
        b.update(sq(dx as int, 7), Color::WhiteDame)
    } else {
        b
    }
}

/// The move captured and the same piece can capture again from its landing
/// square, so the turn does not pass.
pub open spec fn chain_continues(pre: Board, x: i32, y: i32, dx: i32, dy: i32) -> bool {
    &&& (dx - x == 2 || dx - x == -2)
    &&& can_jump(board_relocated(pre.board@, x, y, dx, dy), pre.next_move, dx, dy)
}

/// How the board after `move_it(x, y, dx, dy)` relates to the board before.
/// An illegal request leaves the state unchanged. A legal one relocates the
/// piece, removes a jumped-over piece, logs the move, promotes a piece
/// landing on its far row, and then either keeps the turn (capture chain) or
/// passes it, recomputes the opponent's eligible movers, and declares the
/// mover the winner exactly when the opponent has none.
pub open spec fn move_result(pre: Board, x: i32, y: i32, dx: i32, dy: i32, post: Board) -> bool {
    if !legal_move(pre, x, y, dx, dy) {
        same_state(pre, post)
    } else {
        let mover = pre.next_move;
        let nb = board_promoted(board_relocated(pre.board@, x, y, dx, dy), dx, dy, mover);
        let chain = chain_continues(pre, x, y, dx, dy);
        &&& post.board@ == nb
        &&& post.last_moves@ == pre.last_moves@.push((x, y, dx, dy))
        &&& post.move_no == if pre.move_no < i32::MAX {
            pre.move_no + 1
        } else {
            i32::MAX as int
        }
        &&& post.positions@.no_duplicates()
        &&& post.positions@.len() == pre.positions@.len() - (if dx - x == 2 || dx - x == -2 {
            1int
        } else {
            0int
        })
        &&& forall|m: (i32, i32)| #[trigger]
            post.positions@.contains(m) <==> (on_board(m.0 as int, m.1 as int) && cell(
                nb,
                m.0 as int,
                m.1 as int,
            ) != Color::Empty)
        &&& if chain {
            &&& post.next_move == mover
            &&& post.winner == Player::Nobody
            &&& post.valid_pieces_to_move@ == seq![(dx, dy)]
        } else {
            let opp = opponent(mover);
            &&& post.next_move == opp
            &&& post.valid_pieces_to_move@ == eligible(nb, opp, post.positions@)
            &&& post.winner == if eligible(nb, opp, post.positions@).len() == 0 {
                mover
            } else {
                Player::Nobody
            }
        }
    }
}

proof fn lemma_push_contains<T>(s: Seq<T>, e: T)
    ensures
        forall|m: T| #[trigger] s.push(e).contains(m) <==> (s.contains(m) || m == e),
{
    assert forall|m: T| #[trigger] s.push(e).contains(m) implies (s.contains(m) || m == e) by {
        let i = choose|i: int| 0 <= i < s.push(e).len() && s.push(e)[i] == m;
        if i < s.len() {
            assert(s[i] == m);
        }
    }
    assert forall|m: T| (s.contains(m) || m == e) implies #[trigger] s.push(e).contains(m) by {
        if m == e {
            assert(s.push(e)[s.len() as int] == m);
        } else {
            let i = choose|i: int| 0 <= i < s.len() && s[i] == m;
            assert(s.push(e)[i] == m);
        }
    }
}

proof fn lemma_push_no_dup<T>(s: Seq<T>, e: T)
    requires
        s.no_duplicates(),
        !s.contains(e),
    ensures
        s.push(e).no_duplicates(),
{
    assert forall|i: int, j: int| 0 <= i < j < s.push(e).len() implies s.push(e)[i] != s.push(
        e,
    )[j] by {
        if j == s.len() {
            assert(s.contains(s[i]));
        }
    }
}

/// A man standing on its own far row has no jump: its only direction leaves
/// the board.
proof fn lemma_far_row_man_no_jumps(b: Seq<Color>, dx: i32)
    ensures
        cell(b, dx as int, 0) == Color::BlackNormal ==> piece_jumps(b, dx, 0i32).len() == 0,
        cell(b, dx as int, 7) == Color::WhiteNormal ==> piece_jumps(b, dx, 7i32).len() == 0,
{
}

impl Board {
    /// Apply the move of the piece at `(x, y)` to `(dx, dy)`. An illegal
    /// request — wrong piece, illegal destination, or a finished game — is
    /// silently ignored and leaves the state unchanged.
    #[verifier::rlimit(100)]
    pub fn move_it(&mut self, x: i32, y: i32, dx: i32, dy: i32)
        requires
            old(self).wf(),
        ensures
            final(self).wf(),
            move_result(*old(self), x, y, dx, dy, *final(self)),
            old(self).game_ok() ==> final(self).game_ok(),
    {
        let ghost pre = *old(self);
        let ghost t = old(self).next_move;
        let ghost b0 = old(self).board@;
        let ghost ps0 = old(self).positions@;

        // Ignore the request when the piece may not move or the game is over.
        if !self.moving_piece_is_allowed(x, y) || !(self.winner == Player::Nobody) {
            return ;
        }

        // Ignore the request when (dx, dy) is not a legal destination.
        let mf = self.moves_for(x, y);
        let n = mf.v.len();
        let mut k: usize = 0;
        while k < n && !(mf.v[k].0 == dx && mf.v[k].1 == dy)
            invariant
                mf.v@ == piece_moves(b0, t, x, y),
                n == mf.v@.len(),
                k <= n,
                forall|i: int| 0 <= i < k ==> mf.v@[i] != (dx, dy),
            decreases n - k,
        {
            k += 1;
        }
        if k == n {
            proof {
                if piece_moves(b0, t, x, y).contains((dx, dy)) {
                    let w = choose|w: int|
                        0 <= w < n && piece_moves(b0, t, x, y)[w] == (dx, dy);
                    assert(false);
                }
            }
            return ;
        }
        proof {
            assert(mf.v@[k as int] == (dx, dy));
            assert(piece_moves(b0, t, x, y).contains((dx, dy)));
            lemma_move_props(b0, t, x, y, (dx, dy));
            assert(legal_move(pre, x, y, dx, dy));
        }

        let jump = dx - x == 2 || dx - x == -2;
        let p = self.index(x, y).unwrap();
        let q = self.index(dx, dy).unwrap();
        let ghost mid = (((x + dx) / 2) as i32, ((y + dy) / 2) as i32);
        proof {
            lemma_sq_injective_all(x, y, dx, dy);
        }

        self.last_moves.push((x, y, dx, dy));
        if self.move_no < i32::MAX {
            self.move_no = self.move_no + 1;
        }

        // Relocate the piece in the dense position list.
        proof {
            if ps0.contains((dx, dy)) {
                let w = choose|w: int| 0 <= w < ps0.len() && ps0[w] == (dx, dy);
                assert(false);
            }
            lemma_push_no_dup(ps0, (dx, dy));
            lemma_push_contains(ps0, (dx, dy));
            assert(cell(b0, x as int, y as int) != Color::Empty);
        }
        self.positions.push((dx, dy));
        self.remove_position(x, y);

        // Relocate the piece in the cells and the occupancy mask.
        let c = self.board[p];
        self.board[q] = c;
        self.board[p] = Color::Empty;
        self.set_bit(q);
        self.clear_bit(p);

        // A jump removes the jumped-over opponent piece.
        let mut removed = false;
        if jump {
            let mx = x + (dx - x) / 2;
            let my = y + (dy - y) / 2;
            proof {
                assert(mx as int == (x + dx) / 2 && my as int == (y + dy) / 2);
                assert(owned_by(b0, mx as int, my as int, opponent(t)));
                assert(cell(b0, mx as int, my as int) != Color::Empty);
            }
            let pp = self.index(mx, my).unwrap();
            self.remove_position(mx, my);
            self.board[pp] = Color::Empty;
            self.clear_bit(pp);
            removed = true;
        }

        let ghost nb1 = board_relocated(b0, x, y, dx, dy);
        proof {
            assert(self.board@ =~= nb1);
            self.lemma_relocated_state(pre, x, y, dx, dy, jump);
        }

        let player = self.next_move;
        // Chain check: can the capturing piece capture again from where it
        // landed? Decided before promotion: a freshly promoted dame does not
        // chain.
        let chain = removed && self.can_remove_piece(dx, dy);

        // Promotion of a piece landing on its far row.
        if dy == 0 && player == Player::Black {
            let qq = self.index(dx, 0).unwrap();
            self.board[qq] = Color::BlackDame;
        }
        if dy == 7 && player == Player::White {
            let qq = self.index(dx, 7).unwrap();
            self.board[qq] = Color::WhiteDame;
        }
        let ghost nb = board_promoted(nb1, dx, dy, t);
        proof {
            assert(self.board@ =~= nb);
            self.lemma_promoted_state(pre, x, y, dx, dy, nb1);
            if chain {
                // When the chain continues the promotion changed nothing: a
                // man cannot both land on its far row and keep a jump there.
                lemma_far_row_man_no_jumps(nb1, dx);
                assert(nb =~= nb1);
            }
        }

        if chain {
            self.valid_pieces_to_move = vec![(dx, dy)];
            proof {
                assert(self.valid_pieces_to_move@ =~= seq![(dx, dy)]);
                assert(can_jump(nb, t, dx, dy));
            }
        } else {
            self.next_move = self.other_player(player);
            self.update_valid_pieces_to_move();
            // The mover wins when the opponent has nothing left to move.
            if self.valid_pieces_to_move.len() == 0 {
                self.winner = player;
            }
        }
        proof {
            assert forall|m: (i32, i32)| #[trigger]
                self.positions@.contains(m) <==> (on_board(m.0 as int, m.1 as int) && cell(
                nb,
                m.0 as int,
                m.1 as int,
            ) != Color::Empty) by {}
            assert(move_result(pre, x, y, dx, dy, *self));
            assert(self.wf());
        }
    }

    /// After relocation and capture removal: the mask mirrors the new cells
    /// and the position list holds exactly the occupied squares, each once.
    #[verifier::rlimit(100)]
    proof fn lemma_relocated_state(
        &self,
        pre: Board,
        x: i32,
        y: i32,
        dx: i32,
        dy: i32,
        jump: bool,
    )
        requires
            pre.cells_ok(),
            legal_move(pre, x, y, dx, dy),
            jump == (dx - x == 2 || dx - x == -2),
            self.board@ == board_relocated(pre.board@, x, y, dx, dy),
            self.next_move == pre.next_move,
            forall|i: u64|
                i < 64 ==> (#[trigger] bit_set(self.board_bitmask, i) <==> (i != sq(
                    x as int,
                    y as int,
                ) as u64 && (!jump || i != sq((x + dx) / 2, (y + dy) / 2) as u64) && (i == sq(
                    dx as int,
                    dy as int,
                ) as u64 || bit_set(pre.board_bitmask, i)))),
            self.positions@.no_duplicates(),
            forall|m: (i32, i32)| #[trigger]
                self.positions@.contains(m) <==> (pre.positions@.contains(m) || m == (dx, dy))
                    && m != (x, y) && (!jump || m != (((x + dx) / 2) as i32, ((y + dy) / 2) as i32)),
            self.positions@.len() <= 64,
        ensures
            self.mask_ok(),
            self.positions_ok(),
    {
        let b0 = pre.board@;
        let t = pre.next_move;
        let nb1 = board_relocated(b0, x, y, dx, dy);
        lemma_move_props(b0, t, x, y, (dx, dy));
        let sp = sq(x as int, y as int);
        let sd = sq(dx as int, dy as int);
        let sm = sq((x + dx) / 2, (y + dy) / 2);

        assert forall|i: u64|
            i < 64 implies (#[trigger] bit_set(self.board_bitmask, i) <==> self.board@[i as int]
            != Color::Empty) by {
            let xi = (i as int) % 8;
            let yi = (i as int) / 8;
            vstd::arithmetic::div_mod::lemma_fundamental_div_mod(i as int, 8);
            lemma_sq_inverse(xi, yi);
            if i as int == sp {
            } else if i as int == sd {
            } else if jump && i as int == sm {
            } else {
            }
        }

        assert forall|m: (i32, i32)| #[trigger]
            self.positions@.contains(m) implies (on_board(m.0 as int, m.1 as int) && cell(
            nb1,
            m.0 as int,
            m.1 as int,
        ) != Color::Empty) by {
            if pre.positions@.contains(m) {
                let w = choose|w: int|
                    0 <= w < pre.positions@.len() && pre.positions@[w] == m;
                assert(on_board(m.0 as int, m.1 as int));
                assert(cell(b0, m.0 as int, m.1 as int) != Color::Empty);
                lemma_sq_inverse(m.0 as int, m.1 as int);
                lemma_sq_inverse(x as int, y as int);
                lemma_sq_inverse(dx as int, dy as int);
                if jump {
                    lemma_sq_inverse((x + dx) / 2, (y + dy) / 2);
                }
            } else {
                assert(m == (dx, dy));
            }
        }
        assert forall|m: (i32, i32)|
            (on_board(m.0 as int, m.1 as int) && cell(nb1, m.0 as int, m.1 as int)
                != Color::Empty) implies #[trigger] self.positions@.contains(m) by {
            if m == (dx, dy) {
            } else {
                lemma_sq_inverse(m.0 as int, m.1 as int);
                lemma_sq_inverse(x as int, y as int);
                lemma_sq_inverse(dx as int, dy as int);
                if jump {
                    lemma_sq_inverse((x + dx) / 2, (y + dy) / 2);
                }
                assert(cell(b0, m.0 as int, m.1 as int) != Color::Empty);
                assert(pre.positions@.contains(m));
            }
        }
        assert forall|k: int| 0 <= k < self.positions@.len() implies on_board(
            (#[trigger] self.positions@[k]).0 as int,
            self.positions@[k].1 as int,
        ) && cell(self.board@, self.positions@[k].0 as int, self.positions@[k].1 as int)
            != Color::Empty by {
            assert(self.positions@.contains(self.positions@[k]));
        }
    }

    /// Promotion changes one occupied cell to another occupied value, so the
    /// occupancy structures still match the cells.
    proof fn lemma_promoted_state(&self, pre: Board, x: i32, y: i32, dx: i32, dy: i32, nb1: Seq<
        Color,
    >)
        requires
            pre.cells_ok(),
            legal_move(pre, x, y, dx, dy),
            nb1 == board_relocated(pre.board@, x, y, dx, dy),
            nb1.len() == 64,
            self.board@ == board_promoted(nb1, dx, dy, pre.next_move),
            forall|i: u64|
                i < 64 ==> (#[trigger] bit_set(self.board_bitmask, i) <==> nb1[i as int]
                    != Color::Empty),
            self.positions@.no_duplicates(),
            self.positions@.len() <= 64,
            forall|m: (i32, i32)| #[trigger]
                self.positions@.contains(m) <==> (on_board(m.0 as int, m.1 as int) && cell(
                    nb1,
                    m.0 as int,
                    m.1 as int,
                ) != Color::Empty),
        ensures
            self.mask_ok(),
            self.positions_ok(),
    {
        let nb = self.board@;
        let b0 = pre.board@;
        let t = pre.next_move;
        lemma_move_props(b0, t, x, y, (dx, dy));
        // The only cell promotion may change is the landing square, and it is
        // occupied before and after.
        assert(cell(nb1, dx as int, dy as int) == cell(b0, x as int, y as int));
        assert(cell(nb1, dx as int, dy as int) != Color::Empty);
        assert forall|i: int| 0 <= i < 64 implies (nb[i] != Color::Empty <==> nb1[i]
            != Color::Empty) by {
            if nb[i] != nb1[i] {
                assert(i == sq(dx as int, dy as int));
            }
        }
        assert forall|i: u64|
            i < 64 implies (#[trigger] bit_set(self.board_bitmask, i) <==> nb[i as int]
            != Color::Empty) by {}
        assert forall|m: (i32, i32)| #[trigger]
            self.positions@.contains(m) <==> (on_board(m.0 as int, m.1 as int) && cell(
            nb,
            m.0 as int,
            m.1 as int,
        ) != Color::Empty) by {
            if on_board(m.0 as int, m.1 as int) {
                lemma_sq_inverse(m.0 as int, m.1 as int);
                assert(0 <= sq(m.0 as int, m.1 as int) < 64);
            }
        }
        assert forall|k: int| 0 <= k < self.positions@.len() implies on_board(
            (#[trigger] self.positions@[k]).0 as int,
            self.positions@[k].1 as int,
        ) && cell(self.board@, self.positions@[k].0 as int, self.positions@[k].1 as int)
            != Color::Empty by {
            assert(self.positions@.contains(self.positions@[k]));
        }
    }
}

proof fn lemma_sq_injective_all(x: i32, y: i32, dx: i32, dy: i32)
    requires
        on_board(x as int, y as int),
        on_board(dx as int, dy as int),
        dx != x,
    ensures
        sq(x as int, y as int) != sq(dx as int, dy as int),
        0 <= sq(x as int, y as int) < 64,
        0 <= sq(dx as int, dy as int) < 64,
{
    lemma_sq_inverse(x as int, y as int);
    lemma_sq_inverse(dx as int, dy as int);
}

/// Boards with the same state have the same well-formedness, liveness and
/// move list.
pub proof fn lemma_same_state_props(a: Board, b: Board)
    requires
        same_state(a, b),
    ensures
        a.wf() == b.wf(),
        a.game_ok() == b.game_ok(),
        a.spec_valid_moves() == b.spec_valid_moves(),
{
}

/// `move_result` only reads the state, so equal states move alike.
pub proof fn lemma_move_result_same(
    a: Board,
    b: Board,
    x: i32,
    y: i32,
    dx: i32,
    dy: i32,
    post: Board,
)
    requires
        same_state(a, b),
        move_result(a, x, y, dx, dy, post),
    ensures
        move_result(b, x, y, dx, dy, post),
{
}

/// A board with an eligible piece offers at least one move: every eligible
/// piece has a legal destination.
pub proof fn lemma_valid_moves_nonempty(b: Board)
    requires
        b.wf(),
        b.valid_pieces_to_move@.len() > 0,
    ensures
        b.spec_valid_moves().len() > 0,
{
    let el = b.valid_pieces_to_move@;
    let e0 = el[0];
    assert(el.contains(e0));
    if el == eligible(b.board@, b.next_move, b.positions@) {
        lemma_eligible_membership(b.board@, b.next_move, b.positions@);
        assert(piece_moves(b.board@, b.next_move, e0.0, e0.1).len() > 0);
    } else {
        assert(can_jump(b.board@, b.next_move, e0.0, e0.1));
        assert(piece_moves(b.board@, b.next_move, e0.0, e0.1).len() > 0);
    }
    assert(moves_from(b.board@, b.next_move, el) == piece_moves(
        b.board@,
        b.next_move,
        e0.0,
        e0.1,
    ).map_values(tag_src(e0)) + moves_from(b.board@, b.next_move, el.drop_first()));
}

/// `post` is reached from `pre` by playing the listed moves in order, each
/// legal in its state and each made by side `t`.
pub open spec fn plays_out(
    pre: Board,
    t: Player,
    moves: Seq<(i32, i32, i32, i32)>,
    post: Board,
) -> bool
    decreases moves.len(),
{
    if moves.len() == 0 {
        same_state(pre, post)
    } else {
        let m = moves[0];
        &&& pre.next_move == t
        &&& legal_move(pre, m.0, m.1, m.2, m.3)
        &&& exists|mid: Board| #[trigger]
            move_result(pre, m.0, m.1, m.2, m.3, mid) && plays_out(mid, t, moves.drop_first(), post)
    }
}

/// A played-out sequence extends by one more legal move of the same side.
pub proof fn lemma_plays_out_snoc(
    pre: Board,
    t: Player,
    ms: Seq<(i32, i32, i32, i32)>,
    mid: Board,
    m: (i32, i32, i32, i32),
    post: Board,
)
    requires
        plays_out(pre, t, ms, mid),
        mid.next_move == t,
        legal_move(mid, m.0, m.1, m.2, m.3),
        move_result(mid, m.0, m.1, m.2, m.3, post),
    ensures
        plays_out(pre, t, ms.push(m), post),
    decreases ms.len(),
{
    if ms.len() == 0 {
        assert(same_state(pre, mid));
        lemma_move_result_same(mid, pre, m.0, m.1, m.2, m.3, post);
        assert(legal_move(pre, m.0, m.1, m.2, m.3));
        assert(ms.push(m)[0] == m);
        assert(ms.push(m).drop_first() =~= Seq::<(i32, i32, i32, i32)>::empty());
        assert(same_state(post, post));
        assert(plays_out(post, t, ms.push(m).drop_first(), post));
        assert(move_result(pre, m.0, m.1, m.2, m.3, post) && plays_out(
            post,
            t,
            ms.push(m).drop_first(),
            post,
        ));
    } else {
        let mid1 = choose|mid1: Board| #[trigger]
            move_result(pre, ms[0].0, ms[0].1, ms[0].2, ms[0].3, mid1) && plays_out(
                mid1,
                t,
                ms.drop_first(),
                mid,
            );
        lemma_plays_out_snoc(mid1, t, ms.drop_first(), mid, m, post);
        assert(ms.push(m).drop_first() =~= ms.drop_first().push(m));
        assert(ms.push(m)[0] == ms[0]);
        assert(move_result(pre, ms[0].0, ms[0].1, ms[0].2, ms[0].3, mid1) && plays_out(
            mid1,
            t,
            ms.push(m).drop_first(),
            post,
        ));
    }
}

/// The representation invariant of a well-formed board: occupancy bit `i` is
/// set exactly when cell `i` is occupied, and the dense position list holds
/// exactly the occupied coordinates, each once.
pub proof fn lemma_occupancy_invariant(b: Board)
    requires
        b.wf(),
    ensures
        forall|i: u64|
            i < 64 ==> (#[trigger] bit_set(b.board_bitmask, i) <==> b.board@[i as int]
                != Color::Empty),
        forall|m: (i32, i32)| #[trigger]
            b.positions@.contains(m) <==> (on_board(m.0 as int, m.1 as int) && cell(
                b.board@,
                m.0 as int,
                m.1 as int,
            ) != Color::Empty),
        b.positions@.no_duplicates(),
{
    assert forall|m: (i32, i32)| #[trigger]
        b.positions@.contains(m) implies (on_board(m.0 as int, m.1 as int) && cell(
        b.board@,
        m.0 as int,
        m.1 as int,
    ) != Color::Empty) by {
        let w = choose|w: int| 0 <= w < b.positions@.len() && b.positions@[w] == m;
        assert(on_board(b.positions@[w].0 as int, b.positions@[w].1 as int));
    }
}

/// The forced-capture law: on a board whose eligible list was recomputed in
/// full (it is not mid-capture-chain), if any eligible piece has a capturing
/// destination, the eligible list is exactly the set of pieces with one.
/// Mid-chain only the piece that just captured is eligible, though other
/// pieces may have captures too.
pub proof fn lemma_forced_capture(b: Board)
    requires
        b.wf(),
        b.valid_pieces_to_move@ == eligible(b.board@, b.next_move, b.positions@),
        exists|m: (i32, i32)| #[trigger]
            b.valid_pieces_to_move@.contains(m) && can_jump(b.board@, b.next_move, m.0, m.1),
    ensures
        b.valid_pieces_to_move@ == elig_jumpers(b.board@, b.next_move, b.positions@),
        forall|m: (i32, i32)| #[trigger]
            b.valid_pieces_to_move@.contains(m) <==> (b.positions@.contains(m) && can_jump(
                b.board@,
                b.next_move,
                m.0,
                m.1,
            )),
{
    lemma_eligible_membership(b.board@, b.next_move, b.positions@);
    let m = choose|m: (i32, i32)| #[trigger]
        b.valid_pieces_to_move@.contains(m) && can_jump(b.board@, b.next_move, m.0, m.1);
    if elig_jumpers(b.board@, b.next_move, b.positions@).len() == 0 {
        assert(b.positions@.contains(m));
        assert(elig_jumpers(b.board@, b.next_move, b.positions@).contains(m));
        assert(false);
    }
}

/// The eligibility law in full, for a board whose eligible list was
/// recomputed: when any piece of the side to move can capture, exactly the
/// capturing pieces are eligible (global mandatory capture, step-only pieces
/// excluded); when none can, exactly the pieces with a legal destination
/// are.
pub proof fn lemma_eligibility_law(b: Board)
    requires
        b.wf(),
        b.valid_pieces_to_move@ == eligible(b.board@, b.next_move, b.positions@),
    ensures
        (exists|m: (i32, i32)| #[trigger]
            b.positions@.contains(m) && can_jump(b.board@, b.next_move, m.0, m.1)) ==> (
        b.valid_pieces_to_move@ == elig_jumpers(b.board@, b.next_move, b.positions@) && forall|
            m: (i32, i32),
        | #[trigger]
            b.valid_pieces_to_move@.contains(m) <==> (b.positions@.contains(m) && can_jump(
                b.board@,
                b.next_move,
                m.0,
                m.1,
            ))),
        (forall|m: (i32, i32)| #[trigger]
            b.positions@.contains(m) ==> !can_jump(b.board@, b.next_move, m.0, m.1)) ==> (
        b.valid_pieces_to_move@ == elig_movers(b.board@, b.next_move, b.positions@) && forall|
            m: (i32, i32),
        | #[trigger]
            b.valid_pieces_to_move@.contains(m) <==> (b.positions@.contains(m) && piece_moves(
                b.board@,
                b.next_move,
                m.0,
                m.1,
            ).len() > 0)),
{
    lemma_eligible_membership(b.board@, b.next_move, b.positions@);
    let bv = b.board@;
    let t = b.next_move;
    let ps = b.positions@;
    if exists|m: (i32, i32)| #[trigger] ps.contains(m) && can_jump(bv, t, m.0, m.1) {
        let m = choose|m: (i32, i32)| #[trigger] ps.contains(m) && can_jump(bv, t, m.0, m.1);
        assert(elig_jumpers(bv, t, ps).contains(m));
        assert(elig_jumpers(bv, t, ps).len() > 0);
    } else if elig_jumpers(bv, t, ps).len() > 0 {
        let e = elig_jumpers(bv, t, ps)[0];
        assert(elig_jumpers(bv, t, ps).contains(e));
        assert(false);
    }
}

/// The no-op law: an illegal request leaves the board unchanged.
pub proof fn lemma_illegal_noop(pre: Board, x: i32, y: i32, dx: i32, dy: i32, post: Board)
    requires
        move_result(pre, x, y, dx, dy, post),
        !legal_move(pre, x, y, dx, dy),
    ensures
        same_state(pre, post),
{
}

/// The promotion law: a legal move that lands a piece of the side to move on
/// its far row leaves a dame on the landing square, in the same call, capture
/// or not.
pub proof fn lemma_promotion(pre: Board, x: i32, y: i32, dx: i32, dy: i32, post: Board)
    requires
        pre.wf(),
        legal_move(pre, x, y, dx, dy),
        move_result(pre, x, y, dx, dy, post),
        (pre.next_move == Player::Black && dy == 0i32) || (pre.next_move == Player::White && dy
            == 7i32),
    ensures
        cell(post.board@, dx as int, dy as int) == dame_color(pre.next_move),
{
    lemma_move_props(pre.board@, pre.next_move, x, y, (dx, dy));
    lemma_sq_inverse(dx as int, dy as int);
}

/// The winner law: after a legal move that does not continue a capture
/// chain, the game is finished exactly when the opponent has no eligible
/// piece left, and the winner is then the side that made the move.
pub proof fn lemma_winner(pre: Board, x: i32, y: i32, dx: i32, dy: i32, post: Board)
    requires
        pre.wf(),
        legal_move(pre, x, y, dx, dy),
        move_result(pre, x, y, dx, dy, post),
        !chain_continues(pre, x, y, dx, dy),
    ensures
        (post.winner != Player::Nobody) == (post.valid_pieces_to_move@.len() == 0),
        post.winner != Player::Nobody ==> post.winner == pre.next_move,
{
}

/// A verified element-wise copy; the elements are plain copyable values.
pub(crate) fn copy_vec<T: Copy>(v: &Vec<T>) -> (r: Vec<T>)
    ensures
        r@ == v@,
{
    let mut r: Vec<T> = Vec::new();
    let n = v.len();
    let mut k: usize = 0;
    while k < n
        invariant
            n == v@.len(),
            k <= n,
            r@ == v@.take(k as int),
        decreases n - k,
    {
        r.push(v[k]);
        proof {
            assert(r@ =~= v@.take(k as int + 1));
        }
        k += 1;
    }
    proof {
        assert(v@.take(n as int) =~= v@);
    }
    r
}

} // verus!
