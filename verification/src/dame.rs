//! The game adapter: a board together with the side the engine plays for,
//! wrapped behind the search contract, with the position evaluation.

use crate::board;
use crate::board::Board;
use crate::minimax;
use crate::minimax::Game;
use vstd::prelude::*;

verus! {

/// One move: source and destination coordinates.
#[derive(Clone, Copy, PartialEq, Eq, Structural, Debug)]
pub struct DameMove {
    pub src_x: i32,
    pub src_y: i32,
    pub dst_x: i32,
    pub dst_y: i32,
}

impl DameMove {
    pub fn new(x: (i32, i32, i32, i32)) -> (r: DameMove)
        ensures
            r == (DameMove { src_x: x.0, src_y: x.1, dst_x: x.2, dst_y: x.3 }),
    {
        DameMove { src_x: x.0, src_y: x.1, dst_x: x.2, dst_y: x.3 }
    }
}

/// A move tuple as a `DameMove`.
pub open spec fn to_dame_move() -> spec_fn((i32, i32, i32, i32)) -> DameMove {
    |x: (i32, i32, i32, i32)| DameMove { src_x: x.0, src_y: x.1, dst_x: x.2, dst_y: x.3 }
}

/// The static evaluation of `b` for the side `ai`, kept in twelfths of the
/// conventional unit so that it stays an exact integer: 240 per decided win
/// (negated for a loss), 1 per man of advantage, 3 per dame of advantage,
/// and 12 per own dame (a deliberate king-greed term). Always from `ai`'s
/// perspective, whoever is to move.
pub open spec fn spec_score(b: Board, ai: board::Player) -> int {
    let win: int = if b.winner == ai {
        1
    } else if b.winner != board::Player::Nobody {
        -1
    } else {
        0
    };
    let n_ai = board::count_color(b.board@, b.positions@, board::normal_color(ai));
    let n_hm = board::count_color(b.board@, b.positions@, board::normal_color(board::opponent(ai)));
    let d_ai = board::count_color(b.board@, b.positions@, board::dame_color(ai));
    let d_hm = board::count_color(b.board@, b.positions@, board::dame_color(board::opponent(ai)));
    240 * win + (n_ai - n_hm) + 3 * (d_ai - d_hm) + 12 * d_ai
}

/// The adapter: the board and the side the engine maximizes for.
#[derive(Debug)]
pub struct Dame {
    pub b: Board,
    pub ai: board::Player,
}

impl Dame {
    /// Adopt the side to move of `b` as the engine's own side.
    pub fn new(b: Board) -> (r: Dame)
        requires
            b.wf(),
            b.game_ok(),
        ensures
            r.wf(),
            board::same_state(r.b, b),
            r.ai == b.next_move,
    {
        let p = b.player();
        Dame { b, ai: p }
    }
}

impl Clone for Dame {
    fn clone(&self) -> (r: Dame)
        ensures
            board::same_state(r.b, self.b),
            r.ai == self.ai,
    {
        Dame { b: self.b.clone(), ai: self.ai }
    }
}

/// A legal move of the adapter is a legal board move.
pub proof fn lemma_smoves_legal(d: Dame, m: DameMove)
    requires
        d.wf(),
        !d.sfinished(),
        d.smoves().contains(m),
    ensures
        board::legal_move(d.b, m.src_x, m.src_y, m.dst_x, m.dst_y),
{
    let vm = d.b.spec_valid_moves();
    let k = choose|k: int| 0 <= k < d.smoves().len() && d.smoves()[k] == m;
    assert(vm[k] == (m.src_x, m.src_y, m.dst_x, m.dst_y));
    assert(vm.contains((m.src_x, m.src_y, m.dst_x, m.dst_y)));
    board::lemma_moves_from_membership(d.b.board@, d.b.next_move, d.b.valid_pieces_to_move@);
    assert(board::moves_from(d.b.board@, d.b.next_move, d.b.valid_pieces_to_move@).contains(
        (m.src_x, m.src_y, m.dst_x, m.dst_y),
    ));
}

impl Game<DameMove> for Dame {
    /// The board is well formed, somebody can move while nobody has won, and
    /// the engine plays one of the two sides.
    open spec fn wf(&self) -> bool {
        &&& self.b.wf()
        &&& self.b.game_ok()
        &&& self.ai != board::Player::Nobody
    }

    open spec fn sfinished(&self) -> bool {
        self.b.winner != board::Player::Nobody
    }

    open spec fn sscore(&self) -> int {
        spec_score(self.b, self.ai)
    }

    open spec fn smoves(&self) -> Seq<DameMove> {
        self.b.spec_valid_moves().map_values(to_dame_move())
    }

    open spec fn succ(&self, m: DameMove, g: Dame) -> bool {
        g.ai == self.ai && board::move_result(self.b, m.src_x, m.src_y, m.dst_x, m.dst_y, g.b)
    }

    /// The engine maximizes exactly when its own side is to move.
    open spec fn maximizing(&self) -> bool {
        self.ai == self.b.next_move
    }

    fn valid_moves(&self) -> (v: Vec<DameMove>) {
        let ghost vmspec = self.b.spec_valid_moves();
        let vm = self.b.valid_moves();
        let n = vm.len();
        let mut v: Vec<DameMove> = Vec::new();
        let mut k: usize = 0;
        while k < n
            invariant
                vm@ == vmspec,
                n == vmspec.len(),
                k <= n,
                v@ == vmspec.take(k as int).map_values(to_dame_move()),
            decreases n - k,
        {
            v.push(DameMove::new(vm[k]));
            proof {
                assert(v@ =~= vmspec.take(k as int + 1).map_values(to_dame_move()));
            }
            k += 1;
        }
        proof {
            assert(vmspec.take(n as int) =~= vmspec);
            if !self.sfinished() {
                board::lemma_valid_moves_nonempty(self.b);
            }
        }
        v
    }

    fn score(&self) -> (s: i64) {
        let mut s0: i64 = 0;
        // A decided game dominates everything else.
        if self.b.winner() == self.ai {
            s0 = 1;
        }
        if self.b.finished() && !(self.b.winner() == self.ai) {
            s0 = -1;
        }
        // Material: men count single, dames triple, plus a king-greed term
        // for the engine's own dames.
        let n_ai = self.b.count_normal(self.ai);
        let n_hm = self.b.count_normal(self.b.other_player(self.ai));
        let d_ai = self.b.count_dame(self.ai);
        let d_hm = self.b.count_dame(self.b.other_player(self.ai));
        s0 * 240 + (n_ai as i64 - n_hm as i64) + 3 * (d_ai as i64 - d_hm as i64) + 12 * (
        d_ai as i64)
    }

    /// The pure transition: apply `m` to a copy of the board.
    fn set(&self, m: DameMove) -> (g: Dame) {
        let mut b = self.b.clone();
        proof {
            board::lemma_same_state_props(self.b, b);
        }
        let ghost b0 = b;
        b.move_it(m.src_x, m.src_y, m.dst_x, m.dst_y);
        proof {
            board::lemma_move_result_same(b0, self.b, m.src_x, m.src_y, m.dst_x, m.dst_y, b);
        }
        Dame { b, ai: self.ai }
    }

    fn finished(&self) -> (f: bool) {
        self.b.finished()
    }

    fn current_player(&self) -> (p: minimax::Player) {
        if self.ai == self.b.player() {
            minimax::Player::AI
        } else {
            minimax::Player::HUMAN
        }
    }
}

} // verus!
