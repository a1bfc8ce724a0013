//! Move drivers: a uniformly random legal move, and the loop that lets the
//! search engine play out its turn.

use crate::board;
use crate::board::Board;
use crate::dame;
use crate::dame::Dame;
use crate::minimax::Game;
use crate::minimax::MiniMax;
use crate::minimax::pick_index;
use vstd::prelude::*;

verus! {

/// Play one uniformly random legal move: a random eligible piece, then a
/// random destination of that piece.
pub fn random(b: &mut Board)
    requires
        old(b).wf(),
        old(b).valid_pieces_to_move@.len() > 0,
    ensures
        final(b).wf(),
        old(b).game_ok() ==> final(b).game_ok(),
        exists|x: i32, y: i32, dx: i32, dy: i32| #[trigger]
            board::move_result(*old(b), x, y, dx, dy, *final(b)) && (old(b).winner
                == board::Player::Nobody ==> board::legal_move(*old(b), x, y, dx, dy)),
{
    let ghost pre = *old(b);
    let v = b.movable_pieces();
    let e = v[pick_index(v.len())];
    proof {
        assert(b.valid_pieces_to_move@.contains(e));
        if b.valid_pieces_to_move@ == board::eligible(b.board@, b.next_move, b.positions@) {
            board::lemma_eligible_membership(b.board@, b.next_move, b.positions@);
        }
        assert(board::piece_moves(b.board@, b.next_move, e.0, e.1).len() > 0);
    }
    let m = b.mv(e.0, e.1).unwrap();
    let n = m[pick_index(m.len())];
    proof {
        let pm = board::piece_moves(b.board@, b.next_move, e.0, e.1);
        assert(pm.contains((n.x, n.y)));
    }
    let ghost (ex, ey, edx, edy) = (e.0, e.1, n.x, n.y);
    b.move_it(e.0, e.1, n.x, n.y);
    proof {
        if pre.winner == board::Player::Nobody {
            assert(board::legal_move(pre, ex, ey, edx, edy));
        }
        assert(board::move_result(pre, ex, ey, edx, edy, *b));
    }
}

/// Let the engine take its turn: search to `depth` and apply the returned
/// move, again and again while the game is unfinished and the turn has not
/// passed (a capture chain keeps it). The result is reached from `b` by a
/// sequence of legal moves, all made by the side that was to move.
/// Terminates because every move either captures a piece or passes the turn.
pub fn ai_minimax(b: Board, depth: usize) -> (r: Board)
    requires
        b.wf(),
        b.game_ok(),
    ensures
        r.wf(),
        r.game_ok(),
        r.winner != board::Player::Nobody || r.next_move != b.next_move,
        exists|ms: Seq<(i32, i32, i32, i32)>| #[trigger] board::plays_out(b, b.next_move, ms, r),
{
    let ghost borig = b;
    let ghost t0 = b.next_move;
    let ghost mut ms: Seq<(i32, i32, i32, i32)> = Seq::empty();
    let mut d = Dame::new(b);
    proof {
        assert(board::same_state(borig, d.b));
        assert(board::plays_out(borig, t0, ms, d.b));
    }
    while !d.b.finished() && d.b.player() == d.ai
        invariant
            d.wf(),
            d.ai == t0,
            board::plays_out(borig, t0, ms, d.b),
        decreases d.b.positions@.len(), (if d.b.next_move == d.ai { 1int } else { 0int }),
    {
        let ghost dpre = d;
        let mut x = MiniMax::<dame::DameMove>::new(depth);
        let dc = d.clone();
        proof {
            board::lemma_same_state_props(d.b, dc.b);
        }
        let m = x.minimax(dc);
        proof {
            assert(dc.smoves() == d.smoves()) by {
                assert(dc.b.spec_valid_moves() == d.b.spec_valid_moves());
            }
            dame::lemma_smoves_legal(d, m);
        }
        d.b.move_it(m.src_x, m.src_y, m.dst_x, m.dst_y);
        proof {
            // Termination: a capture shrinks the board, anything else
            // passes the turn and ends the loop.
            assert(board::move_result(dpre.b, m.src_x, m.src_y, m.dst_x, m.dst_y, d.b));
            if d.b.next_move == d.ai {
                assert(board::chain_continues(dpre.b, m.src_x, m.src_y, m.dst_x, m.dst_y));
                assert(d.b.positions@.len() < dpre.b.positions@.len());
            } else {
                assert(d.b.positions@.len() <= dpre.b.positions@.len());
            }
            board::lemma_plays_out_snoc(
                borig,
                t0,
                ms,
                dpre.b,
                (m.src_x, m.src_y, m.dst_x, m.dst_y),
                d.b,
            );
            ms = ms.push((m.src_x, m.src_y, m.dst_x, m.dst_y));
        }
    }
    d.b
}

} // verus!
