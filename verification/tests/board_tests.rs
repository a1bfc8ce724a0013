use engine::board::Board;
use engine::board::Color;
use engine::board::Player;

#[test]
fn index() {
    let g = Board::new();
    assert_eq!(g.index(4, 5).unwrap(), 44);
    assert!(g.index(8, 1).is_none());
    assert!(g.index(1, 8).is_none());
    assert!(g.index(-1, 3).is_none());
    assert!(g.index(3, -1).is_none());
}

#[test]
fn color() {
    let g = Board::new();
    assert_eq!(g.color(0, 0).unwrap(), Color::WhiteNormal);
    assert_eq!(g.color(1, 0).unwrap(), Color::Empty);
    assert_eq!(g.color(0, 6).unwrap(), Color::BlackNormal);
    assert!(g.color(0, 8).is_none());
    assert!(g.color(8, 0).is_none());
}

#[test]
fn matching() {
    let mut g = Board::new();
    assert!(g.matching(Color::BlackNormal));
    assert!(g.matching(Color::BlackDame));
    assert!(!g.matching(Color::WhiteNormal));
    assert!(!g.matching(Color::WhiteDame));
    assert!(!g.matching(Color::Empty));
    g.next_move = Player::White;
    assert!(!g.matching(Color::BlackNormal));
    assert!(!g.matching(Color::BlackDame));
    assert!(g.matching(Color::WhiteNormal));
    assert!(g.matching(Color::WhiteDame));
    assert!(!g.matching(Color::Empty));
}

#[test]
fn is_color() {
    let g = Board::new();
    assert!(g.is_color(0, 0, Color::WhiteNormal));
    assert!(g.is_color(1, 0, Color::Empty));
    assert!(g.is_color(0, 6, Color::BlackNormal));
}

#[test]
fn positions() {
    let mut v: Vec<Color> = std::iter::repeat(Color::Empty).take(8 * 8).collect();
    v[0] = Color::WhiteNormal;
    v[9] = Color::WhiteNormal;
    v[11] = Color::WhiteNormal;
    v[63] = Color::BlackNormal;
    let mut g = Board::from(v);
    assert_eq!(g.positions[0], (0, 0));
    assert_eq!(g.positions[1], (1, 1));
    assert_eq!(g.positions[2], (3, 1));
    assert_eq!(g.positions[3], (7, 7));
    g.remove_position(1, 1);
    assert_eq!(g.positions[0], (0, 0));
    assert_eq!(g.positions[1], (7, 7));
    assert_eq!(g.positions[2], (3, 1));
    g.remove_position(3, 1);
    assert_eq!(g.positions[0], (0, 0));
    assert_eq!(g.positions[1], (7, 7));
}

#[test]
fn bits() {
    let mut v: Vec<Color> = std::iter::repeat(Color::Empty).take(8 * 8).collect();
    v[0] = Color::WhiteNormal;
    v[9] = Color::WhiteNormal;
    v[11] = Color::WhiteNormal;
    v[63] = Color::BlackNormal;
    let mut g = Board::from(v);

    assert!(g.board_bitmask & (1 << 0) > 0);
    assert!(g.board_bitmask & (1 << 9) > 0);
    assert!(g.board_bitmask & (1 << 11) > 0);
    assert!(g.board_bitmask & (1 << 63) > 0);
    assert!(g.is_empty(0, 0) == false);

    g.clear_bit(0);
    assert!(g.board_bitmask & (1 << 0) == 0);
    assert!(g.board_bitmask & (1 << 9) > 0);
    assert!(g.board_bitmask & (1 << 11) > 0);
    assert!(g.board_bitmask & (1 << 63) > 0);
    g.clear_bit(9);
    assert!(g.board_bitmask & (1 << 0) == 0);
    assert!(g.board_bitmask & (1 << 9) == 0);
    assert!(g.board_bitmask & (1 << 11) > 0);
    assert!(g.board_bitmask & (1 << 63) > 0);
    g.clear_bit(63);
    assert!(g.board_bitmask & (1 << 0) == 0);
    assert!(g.board_bitmask & (1 << 9) == 0);
    assert!(g.board_bitmask & (1 << 11) > 0);
    assert!(g.board_bitmask & (1 << 63) == 0);
    g.clear_bit(2);
    assert!(g.board_bitmask & (1 << 2) == 0);
    g.clear_bit(11);
    assert!(g.board_bitmask == 0);
}

#[test]
fn occupancy_mirrors_cells() {
    // The occupancy mask and the dense position list track the cells through
    // arbitrary play.
    let mut g = Board::new();
    let moves = [(1, 5, 0, 4), (2, 2, 3, 3), (0, 4, 1, 3)];
    for &(x, y, dx, dy) in moves.iter() {
        g.move_it(x, y, dx, dy);
        for cy in 0..8 {
            for cx in 0..8 {
                let idx = (cy * 8 + cx) as usize;
                let occupied = g.color(cx, cy).unwrap() != Color::Empty;
                assert_eq!(g.board_bitmask & (1u64 << idx) != 0, occupied);
                assert_eq!(g.positions.contains(&(cx, cy)), occupied);
            }
        }
        let mut sorted = g.positions.clone();
        sorted.sort();
        sorted.dedup();
        assert_eq!(sorted.len(), g.positions.len());
    }
}

#[test]
fn forced_capture_narrows_movers() {
    // With a capture on the board, exactly the capturing pieces may move.
    let mut v: Vec<Color> = std::iter::repeat(Color::Empty).take(8 * 8).collect();
    v[(3 * 8 + 3) as usize] = Color::BlackNormal; // can jump the white man
    v[(2 * 8 + 2) as usize] = Color::WhiteNormal;
    v[(5 * 8 + 7) as usize] = Color::BlackNormal; // has only plain steps
    let g = Board::from(v);
    assert_eq!(g.movable_pieces(), vec![(3, 3)]);
    assert_eq!(g.valid_moves(), vec![(3, 3, 1, 1)]);
}

#[test]
fn illegal_moves_change_nothing() {
    // Wrong piece, illegal destination, out-of-board requests: all no-ops.
    let g0 = Board::new();
    let cases = [
        (0, 0, 1, 1),   // white piece, black to move
        (1, 5, 1, 4),   // straight ahead is not diagonal
        (1, 5, 2, 6),   // occupied square
        (9, 9, 8, 8),   // off the board
        (3, 5, 3, 5),   // destination equals source
    ];
    for &(x, y, dx, dy) in cases.iter() {
        let mut g = g0.clone();
        g.move_it(x, y, dx, dy);
        assert_eq!(g.board_bitmask, g0.board_bitmask);
        assert_eq!(g.positions, g0.positions);
        assert_eq!(format!("{:?}", g.board), format!("{:?}", g0.board));
        assert_eq!(g.next_move, g0.next_move);
        assert_eq!(g.valid_pieces_to_move, g0.valid_pieces_to_move);
        assert_eq!(g.winner, g0.winner);
        assert_eq!(g.last_moves, g0.last_moves);
        assert_eq!(g.move_no, g0.move_no);
    }
}

#[test]
fn promotion_makes_dame() {
    // A Black man landing on row 0 becomes a dame by a plain step...
    let mut v: Vec<Color> = std::iter::repeat(Color::Empty).take(8 * 8).collect();
    v[(1 * 8 + 1) as usize] = Color::BlackNormal;
    v[(4 * 8 + 4) as usize] = Color::WhiteNormal;
    let mut g = Board::from(v);
    g.move_it(1, 1, 0, 0);
    assert_eq!(g.color(0, 0).unwrap(), Color::BlackDame);

    // ... and by a capture just the same.
    let mut v2: Vec<Color> = std::iter::repeat(Color::Empty).take(8 * 8).collect();
    v2[(2 * 8 + 3) as usize] = Color::BlackNormal;
    v2[(1 * 8 + 2) as usize] = Color::WhiteNormal;
    v2[(4 * 8 + 4) as usize] = Color::WhiteNormal;
    let mut g2 = Board::from(v2);
    g2.move_it(3, 2, 1, 0);
    assert_eq!(g2.color(1, 0).unwrap(), Color::BlackDame);
    assert_eq!(g2.color(2, 1).unwrap(), Color::Empty);

    // A White man landing on row 7 becomes a dame.
    let mut v3: Vec<Color> = std::iter::repeat(Color::Empty).take(8 * 8).collect();
    v3[(6 * 8 + 2) as usize] = Color::WhiteNormal;
    v3[(5 * 8 + 5) as usize] = Color::BlackNormal;
    let mut g3 = Board::from(v3);
    g3.move_it(5, 5, 6, 4); // Black moves first
    g3.move_it(2, 6, 1, 7);
    assert_eq!(g3.color(1, 7).unwrap(), Color::WhiteDame);
}

#[test]
fn counting_material() {
    let g = Board::new();
    assert_eq!(g.count_normal(Player::Black), 12);
    assert_eq!(g.count_normal(Player::White), 12);
    assert_eq!(g.count_dame(Player::Black), 0);
    assert_eq!(g.count_dame(Player::White), 0);
    assert_eq!(g.positions(Player::Black).len(), 12);
    assert_eq!(g.positions(Player::White).len(), 12);
}

#[test]
fn destinations_for_piece() {
    let g = Board::new();
    // An eligible piece lists its step destinations.
    let pts = g.mv(1, 5).unwrap();
    let xy: Vec<(i32, i32)> = pts.iter().map(|p| (p.x, p.y)).collect();
    assert_eq!(xy, vec![(0, 4), (2, 4)]);
    // A piece of the side not to move is refused.
    assert!(g.mv(0, 2).is_none());
    // An empty square is refused.
    assert!(g.mv(4, 4).is_none());
}

#[test]
fn opening_valid_moves() {
    let g = Board::new();
    let vm = g.valid_moves();
    assert_eq!(vm.len(), 7);
    assert!(vm.contains(&(1, 5, 0, 4)));
    assert!(vm.contains(&(1, 5, 2, 4)));
    assert!(vm.contains(&(3, 5, 2, 4)));
    assert!(vm.contains(&(3, 5, 4, 4)));
    assert!(vm.contains(&(5, 5, 4, 4)));
    assert!(vm.contains(&(5, 5, 6, 4)));
    assert!(vm.contains(&(7, 5, 6, 4)));
}

#[test]
fn capture_chain_keeps_turn() {
    // After a capture that can continue, the same piece must move again.
    let mut v: Vec<Color> = std::iter::repeat(Color::Empty).take(8 * 8).collect();
    v[(5 * 8 + 5) as usize] = Color::BlackNormal;
    v[(4 * 8 + 4) as usize] = Color::WhiteNormal;
    v[(2 * 8 + 2) as usize] = Color::WhiteNormal;
    v[(0 * 8 + 0) as usize] = Color::WhiteNormal;
    let mut g = Board::from(v);
    g.move_it(5, 5, 3, 3);
    assert_eq!(g.player(), Player::Black);
    assert_eq!(g.movable_pieces(), vec![(3, 3)]);
    assert_eq!(g.color(4, 4).unwrap(), Color::Empty);
    g.move_it(3, 3, 1, 1);
    // No further jump from (1, 1): the turn passes.
    assert_eq!(g.player(), Player::White);
    assert_eq!(g.color(2, 2).unwrap(), Color::Empty);
}

#[test]
fn move_log_records_moves() {
    let mut g = Board::new();
    g.move_it(1, 5, 0, 4);
    g.move_it(2, 2, 1, 3);
    assert_eq!(g.get_last_moves(), vec![(1, 5, 0, 4), (2, 2, 1, 3)]);
    assert_eq!(g.move_no, 2);
    g.clear_last_moves();
    assert!(g.get_last_moves().is_empty());
    assert_eq!(g.move_no, 2);
}

#[test]
fn rebuild_derives_state() {
    // The derived structures come from the cells; the scalar fields are
    // kept as given.
    let mut v: Vec<Color> = std::iter::repeat(Color::Empty).take(8 * 8).collect();
    v[(3 * 8 + 3) as usize] = Color::BlackNormal;
    v[(2 * 8 + 2) as usize] = Color::WhiteNormal;
    let g = Board::rebuild(v.clone(), Player::Black, Player::Nobody, vec![(0, 0, 1, 1)], 7);
    assert_eq!(g.player(), Player::Black);
    assert_eq!(g.winner(), Player::Nobody);
    assert_eq!(g.move_no, 7);
    assert_eq!(g.get_last_moves(), vec![(0, 0, 1, 1)]);
    assert_eq!(g.movable_pieces(), vec![(3, 3)]);
    assert!(g.board_bitmask & (1u64 << 27) != 0);
    assert!(!g.is_empty(2, 2));
    // With White to move instead, eligibility follows the turn.
    let g2 = Board::rebuild(v, Player::White, Player::Nobody, Vec::new(), 0);
    assert_eq!(g2.movable_pieces(), vec![(2, 2)]);
}
