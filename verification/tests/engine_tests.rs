use engine::ai;
use engine::board::Board;
use engine::board::Color;
use engine::board::Player;
use engine::dame::Dame;
use engine::dame::DameMove;
use engine::minimax::Game;
use engine::minimax::MiniMax;

fn empty_cells() -> Vec<Color> {
    std::iter::repeat(Color::Empty).take(8 * 8).collect()
}

#[test]
fn score_formula() {
    // Two black men, one black dame against one white man, engine plays
    // Black: 0 win term, +1 man, +3 dame advantage, +12 own dames.
    let mut v = empty_cells();
    v[(4 * 8 + 4) as usize] = Color::BlackNormal;
    v[(5 * 8 + 5) as usize] = Color::BlackNormal;
    v[(6 * 8 + 2) as usize] = Color::BlackDame;
    v[(2 * 8 + 2) as usize] = Color::WhiteNormal;
    let d = Dame::new(Board::from(v));
    assert_eq!(d.score(), 0 * 240 + (2 - 1) + 3 * (1 - 0) + 12 * 1);

    // The starting position is balanced.
    let d0 = Dame::new(Board::new());
    assert_eq!(d0.score(), 0);
}

#[test]
fn score_decided_game() {
    // Black's last piece jumps White's last piece: Black wins, and from
    // Black's perspective the evaluation carries the full win weight.
    let mut v = empty_cells();
    v[(3 * 8 + 3) as usize] = Color::BlackNormal;
    v[(2 * 8 + 2) as usize] = Color::WhiteNormal;
    let mut d = Dame::new(Board::from(v));
    d.b.move_it(3, 3, 1, 1);
    assert_eq!(d.b.winner(), Player::Black);
    assert!(d.b.finished());
    assert_eq!(d.score(), 240 + 1 + 0 + 0);
}

#[test]
fn search_returns_valid_move() {
    let d = Dame::new(Board::new());
    let mut x = MiniMax::<DameMove>::new(2);
    let m = x.minimax(d.clone());
    let vm = d.valid_moves();
    assert!(vm.iter().any(|v| v.src_x == m.src_x && v.src_y == m.src_y && v.dst_x == m.dst_x
        && v.dst_y == m.dst_y));
    assert!(x.scores() >= 1);
    assert!(x.path().len() >= 1);
    let p0 = x.path()[0];
    assert_eq!((p0.src_x, p0.src_y, p0.dst_x, p0.dst_y), (m.src_x, m.src_y, m.dst_x, m.dst_y));
    assert!(x.duration_ms() >= 0);
}

#[test]
fn search_counts_leaves() {
    // Depth 0: every root move is a leaf, so the engine evaluates exactly
    // one leaf per legal move.
    let d = Dame::new(Board::new());
    let mut x = MiniMax::<DameMove>::new(0);
    let _ = x.minimax(d.clone());
    assert_eq!(x.scores(), d.valid_moves().len());

    // Depth 1: the sum over the 7 root moves of each successor's move
    // count. No captures exist this early, so the counts are the White
    // replies: 7 for each.
    let mut x1 = MiniMax::<DameMove>::new(1);
    let _ = x1.minimax(d.clone());
    assert_eq!(x1.scores(), 49);
}

#[test]
fn search_score_is_leaf_score() {
    // One forced jump: the search has a single line, and its score is the
    // evaluation of the state the line reaches.
    let mut v = empty_cells();
    v[(3 * 8 + 3) as usize] = Color::BlackNormal;
    v[(2 * 8 + 2) as usize] = Color::WhiteNormal;
    let d = Dame::new(Board::from(v));
    let mut x = MiniMax::<DameMove>::new(1);
    let m = x.minimax(d.clone());
    assert_eq!((m.src_x, m.src_y, m.dst_x, m.dst_y), (3, 3, 1, 1));
    let leaf = d.set(m);
    assert_eq!(x.score(), leaf.score());
    assert_eq!(x.scores(), 1);
}

#[test]
fn random_tie_break_is_roughly_uniform() {
    // The opening position has 7 legal moves, all scoring equal at depth 1;
    // over many searches each one must come up with roughly uniform
    // frequency.
    let d = Dame::new(Board::new());
    let vm = d.valid_moves();
    assert_eq!(vm.len(), 7);
    let mut counts = [0usize; 7];
    let rounds = 280;
    for _ in 0..rounds {
        let mut x = MiniMax::<DameMove>::new(1);
        let m = x.minimax(d.clone());
        let k = vm
            .iter()
            .position(|v| v.src_x == m.src_x && v.src_y == m.src_y && v.dst_x == m.dst_x
                && v.dst_y == m.dst_y)
            .unwrap();
        counts[k] += 1;
    }
    // Expected 40 per move; allow a wide margin against unlucky runs.
    for &c in counts.iter() {
        assert!(c >= 10, "a tied move was chosen only {} times of {}", c, rounds);
        assert!(c <= 100, "a tied move was chosen {} times of {}", c, rounds);
    }
}

#[test]
fn opening_engine_move() {
    // From the start, Black to move at depth 1: the engine answers with one
    // of the four Black men's diagonal step advances.
    let d = Dame::new(Board::new());
    let mut x = MiniMax::<DameMove>::new(1);
    let m = x.minimax(d.clone());
    assert!([(1, 5), (3, 5), (5, 5), (7, 5)].contains(&(m.src_x, m.src_y)));
    assert_eq!(m.dst_y, 4);
    assert!((m.dst_x - m.src_x).abs() == 1);
    assert!(d.b.color(m.dst_x, m.dst_y).unwrap() == Color::Empty);
}

#[test]
fn forced_king_capture() {
    // Two kings a side; a single Black king can jump a White king. The
    // forced-capture rule leaves that jump as the only legal move, and the
    // captured king disappears from the cells and the position list.
    let mut v = empty_cells();
    v[(2 * 8 + 2) as usize] = Color::BlackDame;
    v[(7 * 8 + 7) as usize] = Color::BlackDame;
    v[(3 * 8 + 3) as usize] = Color::WhiteDame;
    v[(0 * 8 + 5) as usize] = Color::WhiteDame;
    let mut g = Board::from(v);
    assert_eq!(g.player(), Player::Black);
    assert_eq!(g.valid_moves(), vec![(2, 2, 4, 4)]);
    g.move_it(2, 2, 4, 4);
    assert_eq!(g.color(3, 3).unwrap(), Color::Empty);
    assert!(!g.positions.contains(&(3, 3)));
    assert_eq!(g.count_dame(Player::White), 1);
}

#[test]
fn last_piece_capture_wins() {
    // One ply from a Black win: Black's last piece jumps White's last
    // piece, leaving White nothing to move.
    let mut v = empty_cells();
    v[(3 * 8 + 3) as usize] = Color::BlackNormal;
    v[(2 * 8 + 2) as usize] = Color::WhiteNormal;
    let mut g = Board::from(v);
    g.move_it(3, 3, 1, 1);
    assert_eq!(g.winner(), Player::Black);
    assert!(g.finished());
    assert!(g.movable_pieces().is_empty());
}

#[test]
fn random_plays_a_legal_move() {
    let mut g = Board::new();
    let before = g.valid_moves();
    ai::random(&mut g);
    assert_eq!(g.move_no, 1);
    let played = g.get_last_moves();
    assert_eq!(played.len(), 1);
    assert!(before.contains(&played[0]));
}

#[test]
fn engine_turn_passes_or_wins() {
    let g = Board::new();
    let r = ai::ai_minimax(g, 1);
    // From the opening nobody can win in one turn: the turn must have
    // passed to White after exactly one move.
    assert_eq!(r.player(), Player::White);
    assert!(!r.finished());
    assert_eq!(r.get_last_moves().len(), 1);
}

#[test]
fn engine_finishes_the_game() {
    // The engine, one jump from winning, takes it and the game ends.
    let mut v = empty_cells();
    v[(3 * 8 + 3) as usize] = Color::BlackNormal;
    v[(2 * 8 + 2) as usize] = Color::WhiteNormal;
    let g = Board::from(v);
    let r = ai::ai_minimax(g, 2);
    assert_eq!(r.winner(), Player::Black);
    assert!(r.finished());
}

#[test]
fn adapter_delegates() {
    let d = Dame::new(Board::new());
    assert!(!d.finished());
    assert_eq!(d.current_player(), engine::minimax::Player::AI);
    let vm = d.valid_moves();
    assert_eq!(vm.len(), 7);
    let m = DameMove::new((1, 5, 0, 4));
    let d2 = d.set(m);
    assert_eq!(d2.b.player(), Player::White);
    assert_eq!(d2.ai, Player::Black);
    // `set` is pure: the original adapter still sees Black to move.
    assert_eq!(d.b.player(), Player::Black);
}

#[test]
fn search_avoids_losing_move() {
    // Black has three steps; one walks into a capture. At depth 2 the
    // engine, maximizing for Black, must never choose the losing step.
    let mut v = empty_cells();
    v[(4 * 8 + 4) as usize] = Color::BlackNormal;
    v[(6 * 8 + 0) as usize] = Color::BlackNormal;
    v[(2 * 8 + 2) as usize] = Color::WhiteNormal;
    v[(1 * 8 + 7) as usize] = Color::WhiteNormal;
    let d = Dame::new(Board::from(v));
    assert_eq!(d.valid_moves().len(), 3);
    for _ in 0..20 {
        let mut x = MiniMax::<DameMove>::new(2);
        let m = x.minimax(d.clone());
        assert!((m.src_x, m.src_y, m.dst_x, m.dst_y) != (4, 4, 3, 3));
    }
}

#[test]
fn fresh_engine_is_zeroed() {
    let x = MiniMax::<DameMove>::new(3);
    assert_eq!(x.scores(), 0);
    assert_eq!(x.score(), 0);
    assert_eq!(x.duration_ms(), 0);
    assert!(x.path().is_empty());
}
